use vstd::prelude::*;
use crate::engine::{lemma_input_value, resolve_node};
use crate::ids::{DerivedNodeId, Epoch, Key, NodeKind, ParamId};
use crate::model::{
    frame, fresh_read, node_ok, reads_current, recipe_of, stored_deps, time_of, value_of,
    denote, derived_time, derived_value, engine_inv, has_key, input_below, is_fresh, key_index,
    lemma_frame_lookup, lemma_inv_params_grow, lemma_inv_register, param_ok, lemma_inv_write_source, lemma_key_index, lemma_source_written, source_time,
    source_value, source_written,
};
use crate::node::{Dependency, DerivedNode, DidRecalculate, SourceNode};
use crate::params::{interned, ParamArena, ParamValue};
use crate::recipe::Recipe;
use crate::table::{DerivedTable, FunctionTable, SourceTable};

verus! {

/// What a database operation can refuse.
#[derive(Clone, Copy, Debug, PartialEq, Eq, Structural)]
pub enum EngineError {
    /// A function is already registered under this key.
    DuplicateKey,
    /// A recipe reads a function that is not registered yet.
    UnknownDependency,
    /// No function is registered under the requested node's key.
    UnknownFunction,
    /// A node's argument id names no interned value.
    UnknownParam,
}

/// The database: the epoch clock, the param arena, the source table, the
/// registered functions and the memo table of derived nodes.
pub struct Database {
    epoch: Epoch,
    params: ParamArena,
    sources: SourceTable,
    functions: FunctionTable,
    derived: DerivedTable,
}

impl Database {
    pub closed spec fn epoch_spec(&self) -> u64 {
        self.epoch.value
    }

    pub closed spec fn params_spec(&self) -> Seq<ParamValue> {
        self.params@
    }

    pub closed spec fn sources_spec(&self) -> Seq<(Key, SourceNode)> {
        self.sources@
    }

    pub closed spec fn functions_spec(&self) -> Seq<(Key, Recipe)> {
        self.functions@
    }

    pub closed spec fn derived_spec(&self) -> Seq<(DerivedNodeId, DerivedNode)> {
        self.derived@
    }

    pub open spec fn wf(&self) -> bool {
        &&& engine_inv(self.sources_spec(), self.params_spec(), self.functions_spec(), self.derived_spec(), self.epoch_spec())
        &&& crate::params::no_duplicates(self.params_spec())
        &&& self.params_wf()
        &&& self.derived_wf()
        &&& self.sources_wf()
        &&& self.functions_wf()
    }

    pub closed spec fn functions_wf(&self) -> bool {
        self.functions.wf()
    }

    pub closed spec fn sources_wf(&self) -> bool {
        self.sources.wf()
    }

    pub closed spec fn derived_wf(&self) -> bool {
        self.derived.wf()
    }

    pub closed spec fn params_wf(&self) -> bool {
        self.params.wf()
    }

    /// The current value of a source slot; an unwritten one reads as 0.
    pub open spec fn source_value_spec(&self, k: Key) -> i64 {
        source_value(self.sources_spec(), k)
    }

    pub open spec fn source_time_spec(&self, k: Key) -> u64 {
        source_time(self.sources_spec(), k)
    }

    pub open spec fn has_source(&self, k: Key) -> bool {
        has_key(self.sources_spec(), k)
    }

    /// `p` names an interned argument value.
    pub open spec fn param_interned(&self, p: ParamId) -> bool {
        (p.index as int) < self.params_spec().len()
    }

    pub open spec fn is_registered(&self, k: Key) -> bool {
        has_key(self.functions_spec(), k)
    }

    /// The value of node `k` computed from scratch over the current sources.
    pub open spec fn value_from_scratch(&self, k: NodeKind) -> i64 {
        denote(self.functions_spec(), self.sources_spec(), self.params_spec(), k)
    }

    pub open spec fn has_node(&self, id: DerivedNodeId) -> bool {
        has_key(self.derived_spec(), id)
    }

    pub open spec fn stored_value(&self, id: DerivedNodeId) -> i64 {
        derived_value(self.derived_spec(), id)
    }

    pub open spec fn stored_time_updated(&self, id: DerivedNodeId) -> u64 {
        derived_time(self.derived_spec(), id)
    }

    /// The node of `id` has been verified in the current epoch.
    pub open spec fn verified_now(&self, id: DerivedNodeId) -> bool {
        is_fresh(self.derived_spec(), id, self.epoch_spec())
    }

    /// The inputs of the function registered under `k`, in reading order.
    pub open spec fn recipe_inputs(&self, k: Key) -> Seq<NodeKind> {
        recipe_of(self.functions_spec(), k).inputs@
    }

    /// The dependency list stored for `id`.
    pub open spec fn deps_of(&self, id: DerivedNodeId) -> Seq<Dependency> {
        stored_deps(self.derived_spec(), id)
    }

    /// The update time of a node as stored: a source's last write, a derived
    /// node's last change.
    pub open spec fn node_time(&self, k: NodeKind) -> u64 {
        time_of(self.sources_spec(), self.derived_spec(), k)
    }

    /// The value of a node as stored.
    pub open spec fn node_value(&self, k: NodeKind) -> i64 {
        value_of(self.sources_spec(), self.derived_spec(), k)
    }

    /// A source, or a derived node verified in the current epoch.
    pub open spec fn current_now(&self, k: NodeKind) -> bool {
        match k {
            NodeKind::Source(_) => true,
            NodeKind::Derived(d) => self.verified_now(d),
        }
    }

    /// What a successful resolve of `id` from `self` to `after` returns and
    /// changes.
    pub open spec fn resolved(&self, after: &Database, id: DerivedNodeId, r: (i64, DidRecalculate)) -> bool {
        &&& after.wf()
        &&& after.epoch_spec() == self.epoch_spec()
        &&& after.sources_spec() == self.sources_spec()
        &&& after.functions_spec() == self.functions_spec()
        &&& after.params_spec() == self.params_spec()
        &&& after.verified_now(id)
        &&& r.0 == after.stored_value(id)
        &&& r.0 == self.value_from_scratch(NodeKind::Derived(id))
        &&& self.verified_now(id) ==> after.derived_spec() == self.derived_spec() && r.1
            == DidRecalculate::NotRecalculated
        &&& (r.1 == DidRecalculate::Recalculated) == (!self.has_node(id) || self.stored_value(id)
            != r.0)
        &&& after.stored_time_updated(id) == (if r.1 == DidRecalculate::Recalculated {
            self.epoch_spec()
        } else {
            self.stored_time_updated(id)
        })
        // only `id` and nodes of functions registered before its own are
        // created or changed
        &&& frame(
            self.functions_spec(),
            self.epoch_spec(),
            self.derived_spec(),
            after.derived_spec(),
            key_index(self.functions_spec(), id.key),
            id,
            true,
        )
        // the stored reads are the function's inputs, each current, each
        // holding its value from scratch
        &&& after.deps_of(id).len() == self.recipe_inputs(id.key).len()
        &&& forall|j: int|
            0 <= j < after.deps_of(id).len() ==> {
                let dep = #[trigger] after.deps_of(id)[j];
                &&& dep.node_to == self.recipe_inputs(id.key)[j]
                &&& dep.time_verified_or_updated.value == after.node_time(dep.node_to)
                &&& after.current_now(dep.node_to)
                &&& after.node_value(dep.node_to) == self.value_from_scratch(dep.node_to)
            }
        // where no read is out of date, the dependency list is kept
        &&& self.has_node(id) && reads_current(after.sources_spec(), after.derived_spec(), self.deps_of(id))
            ==> after.deps_of(id) == self.deps_of(id)
        &&& forall|x: DerivedNodeId| #[trigger]
            self.verified_now(x) ==> after.verified_now(x) && after.stored_value(x)
                == self.stored_value(x) && after.stored_time_updated(x) == self.stored_time_updated(x)
    }

    /// What `write_source(key, value)` does, from `self` to `after`.
    pub open spec fn source_write(&self, after: &Database, key: Key, value: i64) -> bool {
        &&& after.wf()
        &&& after.epoch_spec() == self.epoch_spec() + 1
        &&& after.has_source(key)
        &&& after.source_value_spec(key) == value
        &&& after.source_time_spec(key) == after.epoch_spec()
        &&& forall|k: Key|
            k != key ==> #[trigger] after.source_value_spec(k) == self.source_value_spec(k)
                && after.source_time_spec(k) == self.source_time_spec(k) && after.has_source(k)
                == self.has_source(k)
        &&& after.functions_spec() == self.functions_spec()
        &&& after.derived_spec() == self.derived_spec()
        &&& after.params_spec() == self.params_spec()
    }

    /// An empty database at epoch 0.
    pub fn new() -> (r: Database)
        ensures
            r.wf(),
            r.epoch_spec() == 0,
            r.params_spec() == Seq::<ParamValue>::empty(),
            r.sources_spec() == Seq::<(Key, SourceNode)>::empty(),
            r.functions_spec() == Seq::<(Key, Recipe)>::empty(),
            r.derived_spec() == Seq::<(DerivedNodeId, DerivedNode)>::empty(),
    {
        Database {
            epoch: Epoch { value: 0 },
            params: ParamArena::new(),
            sources: SourceTable::new(),
            functions: FunctionTable::new(),
            derived: DerivedTable::new(),
        }
    }

    pub fn current_epoch(&self) -> (r: Epoch)
        ensures
            r.value == self.epoch_spec(),
    {
        self.epoch
    }

    /// Advances the epoch and writes `value` to the source slot `key`,
    /// stamped with the new epoch, whether or not the value differs.
    pub fn write_source(&mut self, key: Key, value: i64)
        requires
            old(self).wf(),
            old(self).epoch_spec() < u64::MAX,
        ensures
            old(self).source_write(final(self), key, value),
    {
        let ghost src0 = self.sources@;
        let e = Epoch { value: self.epoch.value + 1 };
        let node = SourceNode { time_updated: e, value };
        proof {
            lemma_inv_write_source(src0, self.params_spec(), self.functions@, self.derived@, self.epoch.value, key, value);
            assert forall|k: Key| k != key implies #[trigger] source_value(source_written(src0, key, node), k)
                == source_value(src0, k) && source_time(source_written(src0, key, node), k) == source_time(
                src0,
                k,
            ) && has_key(source_written(src0, key, node), k) == has_key(src0, k) by {
                lemma_source_written(src0, key, node, k);
                if has_key(src0, key) {
                    if has_key(src0, k) {
                        let o = key_index(src0, k);
                        assert(source_written(src0, key, node)[o].0 == k);
                    }
                    if has_key(source_written(src0, key, node), k) {
                        let o = key_index(source_written(src0, key, node), k);
                        assert(src0[o].0 == k);
                    }
                } else {
                    if has_key(src0, k) {
                        let o = key_index(src0, k);
                        assert(source_written(src0, key, node)[o].0 == k);
                    }
                    if has_key(source_written(src0, key, node), k) {
                        let o = key_index(source_written(src0, key, node), k);
                        assert(src0.push((key, node))[o].0 == k);
                        assert(o != src0.len());
                        assert(src0[o].0 == k);
                    }
                }
            }
            lemma_source_written(src0, key, node, key);
        }
        match self.sources.find(key) {
            Some(i) => {
                proof {
                    lemma_key_index(src0, key, i as int);
                }
                self.sources.set(i, node);
            },
            None => {
                self.sources.push(key, node);
            },
        }
        self.epoch = e;
        proof {
            assert(self.sources@ == source_written(src0, key, node));
            assert(old(self).sources_spec() == src0);
            assert forall|k: Key| k != key implies #[trigger] self.source_value_spec(k)
                == old(self).source_value_spec(k) && self.source_time_spec(k) == old(
                self,
            ).source_time_spec(k) && self.has_source(k) == old(self).has_source(k) by {
                assert(source_value(source_written(src0, key, node), k) == source_value(src0, k));
            }
            assert(self.params == old(self).params);
            assert(self.params_wf());
            assert(self.functions == old(self).functions);
            assert(self.derived == old(self).derived);
            assert(self.functions_wf() && self.derived_wf());
            assert(old(self).source_write(self, key, value));
        }
    }

    /// The current value of a source slot, if it has been written.
    pub fn read_source(&self, key: Key) -> (r: Option<i64>)
        requires
            self.wf(),
        ensures
            r == (if self.has_source(key) {
                Some(self.source_value_spec(key))
            } else {
                None::<i64>
            }),
    {
        match self.sources.find(key) {
            Some(i) => {
                proof {
                    lemma_key_index(self.sources@, key, i as int);
                }
                Some(self.sources.entry(i).1.value)
            },
            None => None,
        }
    }

    /// Registers the function `recipe` under `key`. Its inputs must be
    /// sources or functions registered before it, so no computation can
    /// depend on itself.
    pub fn register_derived(&mut self, key: Key, recipe: Recipe) -> (r: Result<(), EngineError>)
        requires
            old(self).wf(),
        ensures
            final(self).wf(),
            old(self).is_registered(key) ==> r == Err::<(), EngineError>(EngineError::DuplicateKey),
            !old(self).is_registered(key) && (exists|j: int|
                0 <= j < recipe.inputs@.len() && !#[trigger] input_below(
                    old(self).functions_spec(),
                    recipe.inputs@[j],
                    old(self).functions_spec().len() as int,
                )) ==> r == Err::<(), EngineError>(EngineError::UnknownDependency),
            !old(self).is_registered(key) && (forall|j: int|
                0 <= j < recipe.inputs@.len() ==> #[trigger] input_below(
                    old(self).functions_spec(),
                    recipe.inputs@[j],
                    old(self).functions_spec().len() as int,
                )) && (exists|j: int|
                0 <= j < recipe.inputs@.len() && !#[trigger] param_ok(
                    old(self).params_spec(),
                    recipe.inputs@[j],
                )) ==> r == Err::<(), EngineError>(EngineError::UnknownParam),
            r is Ok <==> !old(self).is_registered(key) && (forall|j: int|
                0 <= j < recipe.inputs@.len() ==> #[trigger] input_below(
                    old(self).functions_spec(),
                    recipe.inputs@[j],
                    old(self).functions_spec().len() as int,
                )) && (forall|j: int|
                0 <= j < recipe.inputs@.len() ==> #[trigger] param_ok(
                    old(self).params_spec(),
                    recipe.inputs@[j],
                )),
            r is Ok ==> final(self).functions_spec() == old(self).functions_spec().push((key, recipe))
                && final(self).is_registered(key),
            r is Err ==> final(self).functions_spec() == old(self).functions_spec(),
            final(self).sources_spec() == old(self).sources_spec(),
            final(self).derived_spec() == old(self).derived_spec(),
            final(self).epoch_spec() == old(self).epoch_spec(),
            final(self).params_spec() == old(self).params_spec(),
    {
        if self.functions.find(key).is_some() {
            return Err(EngineError::DuplicateKey);
        }
        let n = recipe.inputs.len();
        let mut j: usize = 0;
        while j < n
            invariant
                *self == *old(self),
                self.wf(),
                !old(self).is_registered(key),
                n == recipe.inputs@.len(),
                0 <= j <= n,
                forall|jj: int|
                    0 <= jj < j ==> #[trigger] input_below(
                        self.functions@,
                        recipe.inputs@[jj],
                        self.functions@.len() as int,
                    ),
            decreases n - j,
        {
            match recipe.inputs[j] {
                NodeKind::Source(_) => {},
                NodeKind::Derived(d) => {
                    match self.functions.find(d.key) {
                        Some(fi) => {
                            proof {
                                lemma_key_index(self.functions@, d.key, fi as int);
                            }
                        },
                        None => {
                            assert(!input_below(self.functions@, recipe.inputs@[j as int], self.functions@.len() as int));
                            return Err(EngineError::UnknownDependency);
                        },
                    }
                },
            }
            j = j + 1;
        }
        let np = self.params.len();
        let mut j: usize = 0;
        while j < n
            invariant
                *self == *old(self),
                self.wf(),
                !old(self).is_registered(key),
                n == recipe.inputs@.len(),
                np == self.params_spec().len(),
                0 <= j <= n,
                forall|jj: int|
                    0 <= jj < n ==> #[trigger] input_below(
                        self.functions@,
                        recipe.inputs@[jj],
                        self.functions@.len() as int,
                    ),
                forall|jj: int| 0 <= jj < j ==> #[trigger] param_ok(self.params_spec(), recipe.inputs@[jj]),
            decreases n - j,
        {
            match recipe.inputs[j] {
                NodeKind::Source(_) => {},
                NodeKind::Derived(d) => {
                    if d.param_id.index >= np as u64 {
                        assert(!param_ok(self.params_spec(), recipe.inputs@[j as int]));
                        return Err(EngineError::UnknownParam);
                    }
                },
            }
            j = j + 1;
        }
        proof {
            lemma_inv_register(self.sources@, self.params_spec(), self.functions@, self.derived@, self.epoch.value, (key, recipe));
        }
        self.functions.push(key, recipe);
        assert(self.functions@[self.functions@.len() - 1].0 == key);
        Ok(())
    }

    /// The value of the derived node `id`, from the memo table where it is
    /// still current and recomputed where an input has changed. Reports
    /// `Recalculated` exactly when the node is new or its value changed.
    pub fn resolve(&mut self, id: DerivedNodeId) -> (r: Result<(i64, DidRecalculate), EngineError>)
        requires
            old(self).wf(),
        ensures
            r is Err <==> !old(self).is_registered(id.key) || !old(self).param_interned(id.param_id),
            !old(self).is_registered(id.key) ==> r == Err::<(i64, DidRecalculate), EngineError>(
                EngineError::UnknownFunction,
            ),
            old(self).is_registered(id.key) && !old(self).param_interned(id.param_id) ==> r == Err::<
                (i64, DidRecalculate),
                EngineError,
            >(EngineError::UnknownParam),
            r is Err ==> *final(self) == *old(self),
            r matches Ok(v) ==> old(self).resolved(final(self), id, v),
    {
        if self.functions.find(id.key).is_none() {
            return Err(EngineError::UnknownFunction);
        }
        if id.param_id.index >= self.params.len() as u64 {
            return Err(EngineError::UnknownParam);
        }
        let ghost d0 = self.derived@;
        let v = resolve_node(&mut self.derived, &self.sources, &self.params, &self.functions, self.epoch, id);
        proof {
            assert forall|x: DerivedNodeId| #[trigger] is_fresh(d0, x, self.epoch.value) implies is_fresh(
                self.derived@,
                x,
                self.epoch.value,
            ) && derived_value(self.derived@, x) == derived_value(d0, x) && derived_time(self.derived@, x)
                == derived_time(d0, x) by {
                lemma_frame_lookup(
                    self.functions@,
                    self.epoch.value,
                    d0,
                    self.derived@,
                    key_index(self.functions@, id.key),
                    id,
                    true,
                    x,
                );
            }
            let dn = self.derived@;
            let k = key_index(dn, id);
            assert(node_ok(self.sources@, self.params@, self.functions@, dn, self.epoch.value, dn[k].0, dn[k].1));
            assert forall|j: int| 0 <= j < stored_deps(dn, id).len() implies value_of(
                self.sources@,
                dn,
                (#[trigger] stored_deps(dn, id)[j]).node_to,
            ) == denote(self.functions@, self.sources@, self.params@, stored_deps(dn, id)[j].node_to)
                && fresh_read(self.sources@, dn, self.epoch.value, stored_deps(dn, id)[j]) by {
                assert(fresh_read(self.sources@, dn, self.epoch.value, dn[k].1.dependencies@[j]));
                lemma_input_value(
                    self.sources@,
                    self.params@,
                    self.functions@,
                    dn,
                    self.epoch.value,
                    stored_deps(dn, id)[j].node_to,
                );
            }
        }
        Ok(v)
    }

    /// Interns `v`, returning the id of the stored equal value.
    pub fn intern(&mut self, v: ParamValue) -> (r: ParamId)
        requires
            old(self).wf(),
            old(self).params_spec().len() < usize::MAX,
        ensures
            final(self).wf(),
            final(self).params_spec() == interned(old(self).params_spec(), v),
            (r.index as int) < final(self).params_spec().len(),
            final(self).params_spec()[r.index as int] == v,
            final(self).sources_spec() == old(self).sources_spec(),
            final(self).functions_spec() == old(self).functions_spec(),
            final(self).derived_spec() == old(self).derived_spec(),
            final(self).epoch_spec() == old(self).epoch_spec(),
    {
        let ghost p0 = self.params_spec();
        let r = self.params.intern(v);
        proof {
            assert forall|i: int| 0 <= i < p0.len() implies #[trigger] self.params_spec()[i] == p0[i] by {
                if !p0.contains(v) {
                    assert(self.params_spec() == p0.push(v));
                }
            }
            lemma_inv_params_grow(self.sources@, p0, self.params_spec(), self.functions@, self.derived@, self.epoch.value);
        }
        r
    }

    /// The interned value under `id`, if any.
    pub fn get_param(&self, id: ParamId) -> (r: Option<ParamValue>)
        ensures
            r == (if (id.index as int) < self.params_spec().len() {
                Some(self.params_spec()[id.index as int])
            } else {
                None::<ParamValue>
            }),
    {
        self.params.get(id)
    }
}

/// Resolving a node a second time in the same epoch answers from the memo
/// table: the same value, reported as not recalculated, with the memo table
/// left as it was.
pub proof fn lemma_fast_path_idempotent(
    db0: Database,
    db1: Database,
    db2: Database,
    id: DerivedNodeId,
    r1: (i64, DidRecalculate),
    r2: (i64, DidRecalculate),
)
    requires
        db0.wf(),
        db0.resolved(&db1, id, r1),
        db1.resolved(&db2, id, r2),
    ensures
        r2.0 == r1.0,
        r2.1 == DidRecalculate::NotRecalculated,
        db2.derived_spec() == db1.derived_spec(),
{
}

/// From `a` to `b` no source was written: the epoch is the same, and every
/// node verified in it is still verified with the same value.
pub open spec fn keeps_current(a: &Database, b: &Database) -> bool {
    &&& b.epoch_spec() == a.epoch_spec()
    &&& forall|x: DerivedNodeId| #[trigger]
        a.verified_now(x) ==> b.verified_now(x) && b.stored_value(x) == a.stored_value(x)
}

pub proof fn lemma_keeps_current_trans(a: Database, b: Database, c: Database)
    requires
        keeps_current(&a, &b),
        keeps_current(&b, &c),
    ensures
        keeps_current(&a, &c),
{
}

/// A resolve writes no source.
pub proof fn lemma_resolve_keeps_current(a: Database, b: Database, id: DerivedNodeId, r: (i64, DidRecalculate))
    requires
        a.resolved(&b, id, r),
    ensures
        keeps_current(&a, &b),
{
}

/// An operation that leaves the epoch and the memo table alone (interning,
/// registering, reading a source) writes no source.
pub proof fn lemma_same_memo_keeps_current(a: Database, b: Database)
    requires
        b.epoch_spec() == a.epoch_spec(),
        b.derived_spec() == a.derived_spec(),
    ensures
        keeps_current(&a, &b),
{
}

/// With no source write between two resolves of a node, the second one
/// recomputes nothing, whatever else happened in between.
pub proof fn lemma_no_spurious_staleness(
    db0: Database,
    db1: Database,
    db2: Database,
    db3: Database,
    id: DerivedNodeId,
    r1: (i64, DidRecalculate),
    r3: (i64, DidRecalculate),
)
    requires
        db0.wf(),
        db0.resolved(&db1, id, r1),
        keeps_current(&db1, &db2),
        db2.resolved(&db3, id, r3),
    ensures
        r3.0 == r1.0,
        r3.1 == DidRecalculate::NotRecalculated,
        db3.derived_spec() == db2.derived_spec(),
{
    assert(db1.verified_now(id));
}

/// After a source write, resolving a node gives its value computed afresh
/// over the new sources, and reports `Recalculated` exactly when that value
/// differs from the one stored before the write.
pub proof fn lemma_change_propagation(
    db0: Database,
    db1: Database,
    db2: Database,
    key: Key,
    value: i64,
    id: DerivedNodeId,
    r: (i64, DidRecalculate),
)
    requires
        db0.wf(),
        db0.source_write(&db1, key, value),
        db1.resolved(&db2, id, r),
    ensures
        r.0 == db1.value_from_scratch(NodeKind::Derived(id)),
        (r.1 == DidRecalculate::Recalculated) == (!db0.has_node(id) || db0.stored_value(id) != r.0),
{
}

/// Early cutoff: when a node's value computed afresh equals its stored
/// value, resolving it reports `NotRecalculated`, and its update time stays,
/// so nodes that read it see no change.
pub proof fn lemma_early_cutoff(db1: Database, db2: Database, id: DerivedNodeId, r: (i64, DidRecalculate))
    requires
        db1.wf(),
        db1.has_node(id),
        db1.stored_value(id) == db1.value_from_scratch(NodeKind::Derived(id)),
        db1.resolved(&db2, id, r),
    ensures
        r.1 == DidRecalculate::NotRecalculated,
        db2.stored_value(id) == db1.stored_value(id),
        db2.stored_time_updated(id) == db1.stored_time_updated(id),
{
}

} // verus!

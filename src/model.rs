use vstd::prelude::*;
use crate::ids::{DerivedNodeId, Key, NodeKind};
use crate::node::{Dependency, DerivedNode, SourceNode};
use crate::params::ParamValue;
use crate::recipe::{fold_values, param_int, start_value, Recipe};

verus! {

/// No key occurs twice among the first components of `s`.
pub open spec fn keys_unique<K, V>(s: Seq<(K, V)>) -> bool {
    forall|i: int, j: int| 0 <= i < s.len() && 0 <= j < s.len() && i != j ==> s[i].0 != s[j].0
}

pub open spec fn has_key<K, V>(s: Seq<(K, V)>, k: K) -> bool {
    exists|i: int| 0 <= i < s.len() && s[i].0 == k
}

/// The position of `k` in `s`; meaningful where `has_key(s, k)`.
pub open spec fn key_index<K, V>(s: Seq<(K, V)>, k: K) -> int {
    choose|i: int| 0 <= i < s.len() && s[i].0 == k
}

pub proof fn lemma_key_index<K, V>(s: Seq<(K, V)>, k: K, i: int)
    requires
        keys_unique(s),
        0 <= i < s.len(),
        s[i].0 == k,
    ensures
        has_key(s, k),
        key_index(s, k) == i,
{
}

/// Positions of old keys survive an append.
pub proof fn lemma_key_index_push<K, V>(s: Seq<(K, V)>, e: (K, V), k: K)
    requires
        keys_unique(s.push(e)),
        has_key(s, k),
    ensures
        has_key(s.push(e), k),
        key_index(s.push(e), k) == key_index(s, k),
{
    let i = key_index(s, k);
    assert(s.push(e)[i] == s[i]);
    lemma_key_index(s.push(e), k, i);
}

// ----- sources -----
pub open spec fn source_time(src: Seq<(Key, SourceNode)>, k: Key) -> u64 {
    if has_key(src, k) {
        src[key_index(src, k)].1.time_updated.value
    } else {
        0
    }
}

/// The current value of a source; a slot never written reads as 0.
pub open spec fn source_value(src: Seq<(Key, SourceNode)>, k: Key) -> i64 {
    if has_key(src, k) {
        src[key_index(src, k)].1.value
    } else {
        0
    }
}

// ----- derived nodes -----
pub open spec fn derived_time(der: Seq<(DerivedNodeId, DerivedNode)>, d: DerivedNodeId) -> u64 {
    if has_key(der, d) {
        der[key_index(der, d)].1.time_updated.value
    } else {
        0
    }
}

pub open spec fn derived_value(der: Seq<(DerivedNodeId, DerivedNode)>, d: DerivedNodeId) -> i64 {
    if has_key(der, d) {
        der[key_index(der, d)].1.value
    } else {
        0
    }
}

/// The stored node of `d` has been verified at epoch `e`.
pub open spec fn is_fresh(der: Seq<(DerivedNodeId, DerivedNode)>, d: DerivedNodeId, e: u64) -> bool {
    has_key(der, d) && der[key_index(der, d)].1.time_verified.value == e
}

pub open spec fn time_of(
    src: Seq<(Key, SourceNode)>,
    der: Seq<(DerivedNodeId, DerivedNode)>,
    k: NodeKind,
) -> u64 {
    match k {
        NodeKind::Source(s) => source_time(src, s),
        NodeKind::Derived(d) => derived_time(der, d),
    }
}

pub open spec fn value_of(
    src: Seq<(Key, SourceNode)>,
    der: Seq<(DerivedNodeId, DerivedNode)>,
    k: NodeKind,
) -> i64 {
    match k {
        NodeKind::Source(s) => source_value(src, s),
        NodeKind::Derived(d) => derived_value(der, d),
    }
}

/// A source, or a derived node that has an entry.
pub open spec fn stored(der: Seq<(DerivedNodeId, DerivedNode)>, k: NodeKind) -> bool {
    match k {
        NodeKind::Source(_) => true,
        NodeKind::Derived(d) => has_key(der, d),
    }
}

pub open spec fn stored_values(
    src: Seq<(Key, SourceNode)>,
    der: Seq<(DerivedNodeId, DerivedNode)>,
    inputs: Seq<NodeKind>,
) -> Seq<i64> {
    Seq::new(inputs.len(), |j: int| value_of(src, der, inputs[j]))
}

// ----- registry -----
pub open spec fn recipe_of(reg: Seq<(Key, Recipe)>, k: Key) -> Recipe {
    reg[key_index(reg, k)].1
}

/// The position of a node's function in the registry; sources come first.
pub open spec fn rank(reg: Seq<(Key, Recipe)>, k: NodeKind) -> int {
    match k {
        NodeKind::Source(_) => -1,
        NodeKind::Derived(d) => key_index(reg, d.key),
    }
}

/// An input that a function at position `i` may read: a source, or a
/// function registered before it.
pub open spec fn input_below(reg: Seq<(Key, Recipe)>, k: NodeKind, i: int) -> bool {
    match k {
        NodeKind::Source(_) => true,
        NodeKind::Derived(d) => has_key(reg, d.key) && key_index(reg, d.key) < i,
    }
}

/// Keys are unique and every function reads only functions registered before
/// it, so no computation can depend on itself.
pub open spec fn registry_wf(reg: Seq<(Key, Recipe)>) -> bool {
    &&& keys_unique(reg)
    &&& forall|i: int, j: int|
        0 <= i < reg.len() && 0 <= j < reg[i].1.inputs@.len() ==> #[trigger] input_below(
            reg,
            reg[i].1.inputs@[j],
            i,
        )
}

// ----- meaning -----
pub open spec fn denote_fuel(
    reg: Seq<(Key, Recipe)>,
    src: Seq<(Key, SourceNode)>,
    par: Seq<ParamValue>,
    k: NodeKind,
    fuel: nat,
) -> i64
    decreases fuel, 1nat,
{
    match k {
        NodeKind::Source(s) => source_value(src, s),
        NodeKind::Derived(d) => if fuel == 0 || !has_key(reg, d.key) {
            0
        } else {
            let r = recipe_of(reg, d.key);
            fold_values(r.combine, start_value(r, param_int(par, d.param_id)), denote_list(reg, src, par, r.inputs@, (fuel - 1) as nat))
        },
    }
}

pub open spec fn denote_list(
    reg: Seq<(Key, Recipe)>,
    src: Seq<(Key, SourceNode)>,
    par: Seq<ParamValue>,
    inputs: Seq<NodeKind>,
    fuel: nat,
) -> Seq<i64>
    decreases fuel, 2nat,
{
    Seq::new(inputs.len(), |j: int| denote_fuel(reg, src, par, inputs[j], fuel))
}

/// The value a node has when computed from scratch over the current sources.
pub open spec fn denote(
    reg: Seq<(Key, Recipe)>,
    src: Seq<(Key, SourceNode)>,
    par: Seq<ParamValue>,
    k: NodeKind,
) -> i64 {
    denote_fuel(reg, src, par, k, reg.len())
}

pub open spec fn denoted_inputs(
    reg: Seq<(Key, Recipe)>,
    src: Seq<(Key, SourceNode)>,
    par: Seq<ParamValue>,
    inputs: Seq<NodeKind>,
) -> Seq<i64> {
    Seq::new(inputs.len(), |j: int| denote(reg, src, par, inputs[j]))
}

pub open spec fn registered(reg: Seq<(Key, Recipe)>, k: NodeKind) -> bool {
    match k {
        NodeKind::Source(_) => true,
        NodeKind::Derived(d) => has_key(reg, d.key),
    }
}

pub proof fn lemma_denote_fuel(
    reg: Seq<(Key, Recipe)>,
    src: Seq<(Key, SourceNode)>,
    par: Seq<ParamValue>,
    k: NodeKind,
    f1: nat,
    f2: nat,
)
    requires
        registry_wf(reg),
        registered(reg, k),
        rank(reg, k) < f1,
        rank(reg, k) < f2,
    ensures
        denote_fuel(reg, src, par, k, f1) == denote_fuel(reg, src, par, k, f2),
    decreases f1,
{
    match k {
        NodeKind::Source(s) => {
            assert(denote_fuel(reg, src, par, k, f1) == source_value(src, s));
            assert(denote_fuel(reg, src, par, k, f2) == source_value(src, s));
        },
        NodeKind::Derived(d) => {
            let i = key_index(reg, d.key);
            let r = recipe_of(reg, d.key);
            let a = denote_list(reg, src, par, r.inputs@, (f1 - 1) as nat);
            let b = denote_list(reg, src, par, r.inputs@, (f2 - 1) as nat);
            assert forall|j: int| 0 <= j < r.inputs@.len() implies a[j] == b[j] by {
                assert(input_below(reg, reg[i].1.inputs@[j], i));
                lemma_denote_fuel(reg, src, par, r.inputs@[j], (f1 - 1) as nat, (f2 - 1) as nat);
            }
            assert(a =~= b);
        },
    }
}

/// A function's value from scratch is its fold over its inputs' values from
/// scratch.
pub proof fn lemma_denote_unfold(
    reg: Seq<(Key, Recipe)>,
    src: Seq<(Key, SourceNode)>,
    par: Seq<ParamValue>,
    d: DerivedNodeId,
)
    requires
        registry_wf(reg),
        has_key(reg, d.key),
    ensures
        denote(reg, src, par, NodeKind::Derived(d)) == fold_values(
            recipe_of(reg, d.key).combine,
            start_value(recipe_of(reg, d.key), param_int(par, d.param_id)),
            denoted_inputs(reg, src, par, recipe_of(reg, d.key).inputs@),
        ),
{
    let i = key_index(reg, d.key);
    let r = recipe_of(reg, d.key);
    let n = reg.len();
    let a = denote_list(reg, src, par, r.inputs@, (n - 1) as nat);
    assert forall|j: int| 0 <= j < r.inputs@.len() implies a[j] == denoted_inputs(reg, src, par,
        r.inputs@,
    )[j] by {
        assert(input_below(reg, reg[i].1.inputs@[j], i));
        lemma_denote_fuel(reg, src, par, r.inputs@[j], (n - 1) as nat, n);
    }
    assert(a =~= denoted_inputs(reg, src, par, r.inputs@));
    assert(n > 0);
    assert(denote_fuel(reg, src, par, NodeKind::Derived(d), n) == fold_values(r.combine, start_value(r, param_int(par, d.param_id)), a));
}

// ----- the engine's invariant -----
/// A read that is still current in epoch `e`: the node's update time is the
/// one recorded, and a derived node read has been verified in `e`.
pub open spec fn fresh_read(
    src: Seq<(Key, SourceNode)>,
    der: Seq<(DerivedNodeId, DerivedNode)>,
    e: u64,
    dep: Dependency,
) -> bool {
    &&& dep.time_verified_or_updated.value == time_of(src, der, dep.node_to)
    &&& match dep.node_to {
        NodeKind::Source(_) => true,
        NodeKind::Derived(d) => is_fresh(der, d, e),
    }
}

/// What holds of every stored derived node `n` with identity `id`.
pub open spec fn node_ok(
    src: Seq<(Key, SourceNode)>,
    par: Seq<ParamValue>,
    reg: Seq<(Key, Recipe)>,
    der: Seq<(DerivedNodeId, DerivedNode)>,
    e: u64,
    id: DerivedNodeId,
    n: DerivedNode,
) -> bool {
    let r = recipe_of(reg, id.key);
    let deps = n.dependencies@;
    &&& has_key(reg, id.key)
    &&& n.time_updated.value <= n.time_verified.value <= e
    &&& deps.len() == r.inputs@.len()
    &&& forall|j: int| 0 <= j < deps.len() ==> #[trigger] deps[j].node_to == r.inputs@[j]
    &&& forall|j: int|
        0 <= j < deps.len() ==> #[trigger] deps[j].time_verified_or_updated.value <= time_of(
            src,
            der,
            deps[j].node_to,
        )
    &&& forall|j: int| 0 <= j < deps.len() ==> stored(der, #[trigger] deps[j].node_to)
    // while no input has changed since it was read, the value is the fold
    // of the inputs' current values
    &&& (forall|j: int|
        0 <= j < deps.len() ==> #[trigger] deps[j].time_verified_or_updated.value == time_of(
            src,
            der,
            deps[j].node_to,
        )) ==> n.value == fold_values(
        r.combine,
        start_value(r, param_int(par, id.param_id)),
        stored_values(src, der, r.inputs@),
    )
    // a node verified in the current epoch holds its value from scratch
    &&& n.time_verified.value == e ==> n.value == denote(reg, src, par, NodeKind::Derived(id))
    // and all its reads are still current
    &&& n.time_verified.value == e ==> forall|j: int|
        0 <= j < deps.len() ==> #[trigger] fresh_read(src, der, e, deps[j])
}

/// A source, or a derived node whose argument is interned.
pub open spec fn param_ok(par: Seq<ParamValue>, k: NodeKind) -> bool {
    match k {
        NodeKind::Source(_) => true,
        NodeKind::Derived(d) => (d.param_id.index as int) < par.len(),
    }
}

/// Every node that the registry names, and every stored node, has an
/// interned argument.
pub open spec fn params_ok(
    reg: Seq<(Key, Recipe)>,
    der: Seq<(DerivedNodeId, DerivedNode)>,
    par: Seq<ParamValue>,
) -> bool {
    &&& forall|i: int, j: int|
        0 <= i < reg.len() && 0 <= j < reg[i].1.inputs@.len() ==> #[trigger] param_ok(
            par,
            reg[i].1.inputs@[j],
        )
    &&& forall|i: int| 0 <= i < der.len() ==> ((#[trigger] der[i]).0.param_id.index as int) < par.len()
}

/// A read that is out of date though its node is current in epoch `e`.
pub open spec fn stale_read(
    src: Seq<(Key, SourceNode)>,
    der: Seq<(DerivedNodeId, DerivedNode)>,
    e: u64,
    dep: Dependency,
) -> bool {
    &&& dep.time_verified_or_updated.value != time_of(src, der, dep.node_to)
    &&& match dep.node_to {
        NodeKind::Source(_) => true,
        NodeKind::Derived(d) => is_fresh(der, d, e),
    }
}

/// The dependency list stored for `id`; empty where there is no entry.
pub open spec fn stored_deps(der: Seq<(DerivedNodeId, DerivedNode)>, id: DerivedNodeId) -> Seq<Dependency> {
    if has_key(der, id) {
        der[key_index(der, id)].1.dependencies@
    } else {
        Seq::empty()
    }
}

/// Every read in `deps` recorded the update time its node has now.
pub open spec fn reads_current(
    src: Seq<(Key, SourceNode)>,
    der: Seq<(DerivedNodeId, DerivedNode)>,
    deps: Seq<Dependency>,
) -> bool {
    forall|j: int|
        0 <= j < deps.len() ==> #[trigger] deps[j].time_verified_or_updated.value == time_of(
            src,
            der,
            deps[j].node_to,
        )
}

pub open spec fn engine_inv(
    src: Seq<(Key, SourceNode)>,
    par: Seq<ParamValue>,
    reg: Seq<(Key, Recipe)>,
    der: Seq<(DerivedNodeId, DerivedNode)>,
    e: u64,
) -> bool {
    &&& keys_unique(src)
    &&& forall|i: int| 0 <= i < src.len() ==> (#[trigger] src[i]).1.time_updated.value <= e
    &&& registry_wf(reg)
    &&& keys_unique(der)
    &&& params_ok(reg, der, par)
    &&& forall|i: int| 0 <= i < der.len() ==> node_ok(src, par, reg, der, e, (#[trigger] der[i]).0, der[i].1)
}

/// A read of `k` gives the same answer in the second state, or `k` has been
/// updated since.
pub open spec fn same_or_later(
    src1: Seq<(Key, SourceNode)>,
    der1: Seq<(DerivedNodeId, DerivedNode)>,
    src2: Seq<(Key, SourceNode)>,
    der2: Seq<(DerivedNodeId, DerivedNode)>,
    k: NodeKind,
) -> bool {
    (time_of(src2, der2, k) == time_of(src1, der1, k) && value_of(src2, der2, k) == value_of(
        src1,
        der1,
        k,
    )) || time_of(src2, der2, k) > time_of(src1, der1, k)
}

/// `node_ok` carries over to a later state in which each input either reads
/// the same or has been updated.
pub proof fn lemma_node_ok_transfer(
    src1: Seq<(Key, SourceNode)>,
    der1: Seq<(DerivedNodeId, DerivedNode)>,
    src2: Seq<(Key, SourceNode)>,
    der2: Seq<(DerivedNodeId, DerivedNode)>,
    par: Seq<ParamValue>,
    reg: Seq<(Key, Recipe)>,
    e1: u64,
    e2: u64,
    id: DerivedNodeId,
    n: DerivedNode,
)
    requires
        node_ok(src1, par, reg, der1, e1, id, n),
        e1 <= e2,
        forall|j: int|
            0 <= j < n.dependencies@.len() ==> same_or_later(
                src1,
                der1,
                src2,
                der2,
                #[trigger] n.dependencies@[j].node_to,
            ),
        forall|d: DerivedNodeId| #[trigger] has_key(der1, d) ==> has_key(der2, d),
        n.time_verified.value == e2 ==> n.value == denote(reg, src2, par, NodeKind::Derived(id)),
        n.time_verified.value == e2 ==> e1 == e2 && src1 == src2,
        n.time_verified.value == e2 ==> forall|d: DerivedNodeId| #[trigger]
            is_fresh(der1, d, e1) ==> is_fresh(der2, d, e2) && derived_time(der2, d) == derived_time(
                der1,
                d,
            ),
    ensures
        node_ok(src2, par, reg, der2, e2, id, n),
{
    if n.time_verified.value == e2 {
        assert forall|j: int| 0 <= j < n.dependencies@.len() implies #[trigger] fresh_read(
            src2,
            der2,
            e2,
            n.dependencies@[j],
        ) by {
            assert(fresh_read(src1, der1, e1, n.dependencies@[j]));
            match n.dependencies@[j].node_to {
                NodeKind::Source(_) => {},
                NodeKind::Derived(d) => {
                    assert(is_fresh(der1, d, e1));
                },
            }
        }
    }
    let r = recipe_of(reg, id.key);
    let deps = n.dependencies@;
    assert forall|j: int| 0 <= j < deps.len() implies #[trigger] deps[j].time_verified_or_updated.value
        <= time_of(src2, der2, deps[j].node_to) by {
        assert(same_or_later(src1, der1, src2, der2, deps[j].node_to));
    }
    if forall|j: int|
        0 <= j < deps.len() ==> #[trigger] deps[j].time_verified_or_updated.value == time_of(
            src2,
            der2,
            deps[j].node_to,
        ) {
        assert forall|j: int| 0 <= j < deps.len() implies #[trigger] deps[j].time_verified_or_updated.value
            == time_of(src1, der1, deps[j].node_to) by {
            assert(same_or_later(src1, der1, src2, der2, deps[j].node_to));
            assert(deps[j].time_verified_or_updated.value == time_of(src2, der2, deps[j].node_to));
        }
        assert(stored_values(src1, der1, r.inputs@) =~= stored_values(src2, der2, r.inputs@)) by {
            assert forall|j: int| 0 <= j < r.inputs@.len() implies stored_values(
                src1,
                der1,
                r.inputs@,
            )[j] == stored_values(src2, der2, r.inputs@)[j] by {
                assert(deps[j].node_to == r.inputs@[j]);
                assert(same_or_later(src1, der1, src2, der2, deps[j].node_to));
                assert(deps[j].time_verified_or_updated.value == time_of(src2, der2, deps[j].node_to));
            }
        }
    }
}

} // verus!

verus! {

// ----- what a call may change -----
/// An entry that a call bounded by `bound` may change: one of a lower rank,
/// or `id` itself where `allow` holds.
pub open spec fn touchable(
    reg: Seq<(Key, Recipe)>,
    bound: int,
    id: DerivedNodeId,
    allow: bool,
    x: DerivedNodeId,
) -> bool {
    key_index(reg, x.key) < bound || (allow && x == id)
}

/// From `a` to `b`: entries keep their places, entries verified in epoch `e`
/// and entries out of reach are unchanged, and new entries are within reach.
pub open spec fn frame(
    reg: Seq<(Key, Recipe)>,
    e: u64,
    a: Seq<(DerivedNodeId, DerivedNode)>,
    b: Seq<(DerivedNodeId, DerivedNode)>,
    bound: int,
    id: DerivedNodeId,
    allow: bool,
) -> bool {
    &&& a.len() <= b.len()
    &&& forall|j: int| 0 <= j < a.len() ==> (#[trigger] b[j]).0 == a[j].0
    &&& forall|j: int|
        0 <= j < a.len() && (a[j].1.time_verified.value == e || !touchable(reg, bound, id, allow, a[j].0))
            ==> #[trigger] b[j] == a[j]
    &&& forall|j: int| a.len() <= j < b.len() ==> touchable(reg, bound, id, allow, (#[trigger] b[j]).0)
}

pub proof fn lemma_frame_refl(
    reg: Seq<(Key, Recipe)>,
    e: u64,
    a: Seq<(DerivedNodeId, DerivedNode)>,
    bound: int,
    id: DerivedNodeId,
    allow: bool,
)
    ensures
        frame(reg, e, a, a, bound, id, allow),
{
}

pub proof fn lemma_frame_trans(
    reg: Seq<(Key, Recipe)>,
    e: u64,
    a: Seq<(DerivedNodeId, DerivedNode)>,
    b: Seq<(DerivedNodeId, DerivedNode)>,
    c: Seq<(DerivedNodeId, DerivedNode)>,
    b1: int,
    id1: DerivedNodeId,
    al1: bool,
    b2: int,
    id2: DerivedNodeId,
    al2: bool,
)
    requires
        frame(reg, e, a, b, b1, id1, al1),
        frame(reg, e, b, c, b2, id2, al2),
        forall|x: DerivedNodeId|
            #[trigger] touchable(reg, b1, id1, al1, x) ==> touchable(reg, b2, id2, al2, x),
    ensures
        frame(reg, e, a, c, b2, id2, al2),
{
    assert forall|j: int| 0 <= j < a.len() implies (#[trigger] c[j]).0 == a[j].0 by {
        assert(b[j].0 == a[j].0);
    }
    assert forall|j: int|
        0 <= j < a.len() && (a[j].1.time_verified.value == e || !touchable(reg, b2, id2, al2, a[j].0))
            implies #[trigger] c[j] == a[j] by {
        assert(b[j] == a[j]);
    }
    assert forall|j: int| a.len() <= j < c.len() implies touchable(
        reg,
        b2,
        id2,
        al2,
        (#[trigger] c[j]).0,
    ) by {
        if j < b.len() {
            assert(c[j].0 == b[j].0);
            assert(touchable(reg, b1, id1, al1, b[j].0));
        }
    }
}

/// A frame within a smaller reach is a frame within a larger one.
pub proof fn lemma_frame_weaken(
    reg: Seq<(Key, Recipe)>,
    e: u64,
    a: Seq<(DerivedNodeId, DerivedNode)>,
    b: Seq<(DerivedNodeId, DerivedNode)>,
    b1: int,
    id1: DerivedNodeId,
    al1: bool,
    b2: int,
    id2: DerivedNodeId,
    al2: bool,
)
    requires
        frame(reg, e, a, b, b1, id1, al1),
        forall|x: DerivedNodeId|
            #[trigger] touchable(reg, b1, id1, al1, x) ==> touchable(reg, b2, id2, al2, x),
    ensures
        frame(reg, e, a, b, b2, id2, al2),
{
    assert forall|j: int| a.len() <= j < b.len() implies touchable(
        reg,
        b2,
        id2,
        al2,
        (#[trigger] b[j]).0,
    ) by {
        assert(touchable(reg, b1, id1, al1, b[j].0));
    }
}

/// Under a frame, an entry that was there is still there at the same place,
/// and a fresh one reads the same.
pub proof fn lemma_frame_lookup(
    reg: Seq<(Key, Recipe)>,
    e: u64,
    a: Seq<(DerivedNodeId, DerivedNode)>,
    b: Seq<(DerivedNodeId, DerivedNode)>,
    bound: int,
    id: DerivedNodeId,
    allow: bool,
    d: DerivedNodeId,
)
    requires
        frame(reg, e, a, b, bound, id, allow),
        keys_unique(a),
        keys_unique(b),
        has_key(a, d),
    ensures
        has_key(b, d),
        key_index(b, d) == key_index(a, d),
        is_fresh(a, d, e) ==> is_fresh(b, d, e) && derived_time(b, d) == derived_time(a, d)
            && derived_value(b, d) == derived_value(a, d),
        !touchable(reg, bound, id, allow, d) ==> b[key_index(b, d)] == a[key_index(a, d)],
{
    let i = key_index(a, d);
    assert(b[i].0 == a[i].0);
    lemma_key_index(b, d, i);
}

/// Appending a node for a new id keeps the invariant.
pub proof fn lemma_inv_push(
    src: Seq<(Key, SourceNode)>,
    par: Seq<ParamValue>,
    reg: Seq<(Key, Recipe)>,
    der: Seq<(DerivedNodeId, DerivedNode)>,
    e: u64,
    id: DerivedNodeId,
    n: DerivedNode,
)
    requires
        engine_inv(src, par, reg, der, e),
        !has_key(der, id),
        node_ok(src, par, reg, der, e, id, n),
        (id.param_id.index as int) < par.len(),
    ensures
        engine_inv(src, par, reg, der.push((id, n)), e),
{
    let der2 = der.push((id, n));
    assert(keys_unique(der2)) by {
        assert forall|i: int, j: int| 0 <= i < der2.len() && 0 <= j < der2.len() && i != j
            implies der2[i].0 != der2[j].0 by {
            if i < der.len() && j < der.len() {
                assert(der2[i] == der[i] && der2[j] == der[j]);
            } else if i < der.len() {
                assert(der2[i] == der[i]);
            } else if j < der.len() {
                assert(der2[j] == der[j]);
            }
        }
    }
    assert forall|d: DerivedNodeId| #[trigger] has_key(der, d) implies has_key(der2, d)
        && key_index(der2, d) == key_index(der, d) by {
        lemma_key_index_push(der, (id, n), d);
    }
    assert forall|i: int| 0 <= i < der2.len() implies node_ok(src, par,
        reg,
        der2,
        e,
        (#[trigger] der2[i]).0,
        der2[i].1,
    ) by {
        let m = der2[i].1;
        if i < der.len() {
            assert(der2[i] == der[i]);
            assert(node_ok(src, par, reg, der, e, der[i].0, der[i].1));
        }
        assert(node_ok(src, par, reg, der, e, der2[i].0, m));
        assert forall|j: int| 0 <= j < m.dependencies@.len() implies same_or_later(
            src,
            der,
            src,
            der2,
            #[trigger] m.dependencies@[j].node_to,
        ) by {
            assert(stored(der, m.dependencies@[j].node_to));
        }
        lemma_node_ok_transfer(src, der, src, der2, par, reg, e, e, der2[i].0, m);
    }
}

/// Replacing the node at `i` keeps the invariant where the new node is sound
/// and its value is unchanged or its update time has grown.
pub proof fn lemma_inv_set(
    src: Seq<(Key, SourceNode)>,
    par: Seq<ParamValue>,
    reg: Seq<(Key, Recipe)>,
    der: Seq<(DerivedNodeId, DerivedNode)>,
    e: u64,
    i: int,
    n: DerivedNode,
)
    requires
        engine_inv(src, par, reg, der, e),
        0 <= i < der.len(),
        node_ok(src, par, reg, der, e, der[i].0, n),
        forall|j: int|
            0 <= j < n.dependencies@.len() ==> #[trigger] n.dependencies@[j].node_to
                != NodeKind::Derived(der[i].0),
        (n.time_updated == der[i].1.time_updated && n.value == der[i].1.value)
            || n.time_updated.value > der[i].1.time_updated.value,
        der[i].1.time_verified.value != e,
    ensures
        engine_inv(src, par, reg, der.update(i, (der[i].0, n)), e),
{
    let id = der[i].0;
    let der2 = der.update(i, (id, n));
    assert(keys_unique(der2)) by {
        assert forall|a: int, b: int| 0 <= a < der2.len() && 0 <= b < der2.len() && a != b
            implies der2[a].0 != der2[b].0 by {
            assert(der2[a].0 == der[a].0 && der2[b].0 == der[b].0);
        }
    }
    assert forall|d: DerivedNodeId| #[trigger] has_key(der, d) implies has_key(der2, d)
        && key_index(der2, d) == key_index(der, d) by {
        let k = key_index(der, d);
        assert(der2[k].0 == der[k].0);
        lemma_key_index(der2, d, k);
    }
    lemma_key_index(der, id, i);
    assert forall|k: NodeKind| stored(der, k) implies #[trigger] same_or_later(src, der, src, der2, k) by {
        match k {
            NodeKind::Source(_) => {},
            NodeKind::Derived(d) => {
                if d == id {
                    lemma_key_index(der2, id, i);
                }
            },
        }
    }
    assert forall|a: int| 0 <= a < der2.len() implies node_ok(src, par,
        reg,
        der2,
        e,
        (#[trigger] der2[a]).0,
        der2[a].1,
    ) by {
        let m = der2[a].1;
        if a != i {
            assert(der2[a] == der[a]);
            assert(node_ok(src, par, reg, der, e, der[a].0, der[a].1));
        }
        assert(node_ok(src, par, reg, der, e, der2[a].0, m));
        assert forall|j: int| 0 <= j < m.dependencies@.len() implies same_or_later(
            src,
            der,
            src,
            der2,
            #[trigger] m.dependencies@[j].node_to,
        ) by {
            assert(stored(der, m.dependencies@[j].node_to));
        }
        lemma_node_ok_transfer(src, der, src, der2, par, reg, e, e, der2[a].0, m);
    }
}

} // verus!

verus! {

// ----- writes and registrations -----
/// The source table after `node` is written to slot `k`.
pub open spec fn source_written(src: Seq<(Key, SourceNode)>, k: Key, node: SourceNode) -> Seq<
    (Key, SourceNode),
> {
    if has_key(src, k) {
        src.update(key_index(src, k), (k, node))
    } else {
        src.push((k, node))
    }
}

pub proof fn lemma_source_written(src: Seq<(Key, SourceNode)>, k: Key, node: SourceNode, other: Key)
    requires
        keys_unique(src),
    ensures
        keys_unique(source_written(src, k, node)),
        source_value(source_written(src, k, node), k) == node.value,
        source_time(source_written(src, k, node), k) == node.time_updated.value,
        other != k ==> source_value(source_written(src, k, node), other) == source_value(src, other)
            && source_time(source_written(src, k, node), other) == source_time(src, other),
{
    let s2 = source_written(src, k, node);
    if has_key(src, k) {
        let i = key_index(src, k);
        assert(keys_unique(s2)) by {
            assert forall|a: int, b: int| 0 <= a < s2.len() && 0 <= b < s2.len() && a != b
                implies s2[a].0 != s2[b].0 by {
                assert(s2[a].0 == src[a].0 && s2[b].0 == src[b].0);
            }
        }
        lemma_key_index(s2, k, i);
        if other != k && has_key(src, other) {
            let o = key_index(src, other);
            lemma_key_index(s2, other, o);
        }
        if other != k && !has_key(src, other) {
            if has_key(s2, other) {
                let o = key_index(s2, other);
                assert(src[o].0 == other);
            }
        }
    } else {
        assert(keys_unique(s2)) by {
            assert forall|a: int, b: int| 0 <= a < s2.len() && 0 <= b < s2.len() && a != b
                implies s2[a].0 != s2[b].0 by {
                if a < src.len() && b < src.len() {
                    assert(s2[a] == src[a] && s2[b] == src[b]);
                } else if a < src.len() {
                    assert(s2[a] == src[a]);
                } else if b < src.len() {
                    assert(s2[b] == src[b]);
                }
            }
        }
        lemma_key_index(s2, k, src.len() as int);
        if other != k && has_key(src, other) {
            lemma_key_index_push(src, (k, node), other);
        }
        if other != k && !has_key(src, other) {
            if has_key(s2, other) {
                let o = key_index(s2, other);
                assert(s2[o] == src[o]);
            }
        }
    }
}

/// A source write at the next epoch keeps the invariant.
pub proof fn lemma_inv_write_source(
    src: Seq<(Key, SourceNode)>,
    par: Seq<ParamValue>,
    reg: Seq<(Key, Recipe)>,
    der: Seq<(DerivedNodeId, DerivedNode)>,
    e: u64,
    k: Key,
    value: i64,
)
    requires
        engine_inv(src, par, reg, der, e),
        e < u64::MAX,
    ensures
        engine_inv(
            source_written(src, k, SourceNode { time_updated: crate::ids::Epoch { value: (e + 1) as u64 }, value }),
            par,
            reg,
            der,
            (e + 1) as u64,
        ),
{
    let node = SourceNode { time_updated: crate::ids::Epoch { value: (e + 1) as u64 }, value };
    let s2 = source_written(src, k, node);
    assert forall|o: Key| #[trigger] source_time(src, o) <= e by {
        if has_key(src, o) {
            let i = key_index(src, o);
            assert(src[i].1.time_updated.value <= e);
        }
    }
    assert forall|o: Key| #![auto] same_or_later(src, der, s2, der, NodeKind::Source(o)) by {
        lemma_source_written(src, k, node, o);
        assert(source_time(src, o) <= e);
    }
    assert forall|i: int| 0 <= i < s2.len() implies (#[trigger] s2[i]).1.time_updated.value <= e + 1 by {
        if has_key(src, k) {
            if i != key_index(src, k) {
                assert(s2[i] == src[i]);
            }
        } else if i < src.len() {
            assert(s2[i] == src[i]);
        }
    }
    lemma_source_written(src, k, node, k);
    assert forall|i: int| 0 <= i < der.len() implies node_ok(s2, par,
        reg,
        der,
        (e + 1) as u64,
        (#[trigger] der[i]).0,
        der[i].1,
    ) by {
        let m = der[i].1;
        assert(node_ok(src, par, reg, der, e, der[i].0, m));
        assert forall|j: int| 0 <= j < m.dependencies@.len() implies same_or_later(
            src,
            der,
            s2,
            der,
            #[trigger] m.dependencies@[j].node_to,
        ) by {
            match m.dependencies@[j].node_to {
                NodeKind::Source(o) => {
                    assert(same_or_later(src, der, s2, der, NodeKind::Source(o)));
                },
                NodeKind::Derived(_) => {},
            }
        }
        lemma_node_ok_transfer(src, der, s2, der, par, reg, e, (e + 1) as u64, der[i].0, m);
    }
}

/// Values from scratch of registered nodes do not change when a function is
/// registered after them.
pub proof fn lemma_denote_fuel_extend(
    reg: Seq<(Key, Recipe)>,
    x: (Key, Recipe),
    src: Seq<(Key, SourceNode)>,
    par: Seq<ParamValue>,
    k: NodeKind,
    f: nat,
)
    requires
        registry_wf(reg),
        keys_unique(reg.push(x)),
        registered(reg, k),
    ensures
        denote_fuel(reg.push(x), src, par, k, f) == denote_fuel(reg, src, par, k, f),
    decreases f,
{
    match k {
        NodeKind::Source(_) => {},
        NodeKind::Derived(d) => {
            if f > 0 {
                lemma_key_index_push(reg, x, d.key);
                let i = key_index(reg, d.key);
                assert(reg.push(x)[i] == reg[i]);
                let r = recipe_of(reg, d.key);
                assert(recipe_of(reg.push(x), d.key) == r);
                let a = denote_list(reg.push(x), src, par, r.inputs@, (f - 1) as nat);
                let b = denote_list(reg, src, par, r.inputs@, (f - 1) as nat);
                assert forall|j: int| 0 <= j < r.inputs@.len() implies a[j] == b[j] by {
                    assert(input_below(reg, reg[i].1.inputs@[j], i));
                    lemma_denote_fuel_extend(reg, x, src, par, r.inputs@[j], (f - 1) as nat);
                }
                assert(a =~= b);
            }
        },
    }
}

/// The registry with `x` appended, where each input of `x` is a source or
/// an already registered function.
pub proof fn lemma_inv_register(
    src: Seq<(Key, SourceNode)>,
    par: Seq<ParamValue>,
    reg: Seq<(Key, Recipe)>,
    der: Seq<(DerivedNodeId, DerivedNode)>,
    e: u64,
    x: (Key, Recipe),
)
    requires
        engine_inv(src, par, reg, der, e),
        !has_key(reg, x.0),
        forall|j: int| 0 <= j < x.1.inputs@.len() ==> #[trigger] input_below(reg, x.1.inputs@[j], reg.len() as int),
        forall|j: int| 0 <= j < x.1.inputs@.len() ==> #[trigger] param_ok(par, x.1.inputs@[j]),
    ensures
        engine_inv(src, par, reg.push(x), der, e),
{
    let reg2 = reg.push(x);
    assert(keys_unique(reg2)) by {
        assert forall|a: int, b: int| 0 <= a < reg2.len() && 0 <= b < reg2.len() && a != b
            implies reg2[a].0 != reg2[b].0 by {
            if a < reg.len() && b < reg.len() {
                assert(reg2[a] == reg[a] && reg2[b] == reg[b]);
            } else if a < reg.len() {
                assert(reg2[a] == reg[a]);
            } else if b < reg.len() {
                assert(reg2[b] == reg[b]);
            }
        }
    }
    assert forall|k: Key| #[trigger] has_key(reg, k) implies has_key(reg2, k) && key_index(reg2, k)
        == key_index(reg, k) && reg2[key_index(reg2, k)] == reg[key_index(reg, k)] by {
        lemma_key_index_push(reg, x, k);
    }
    assert forall|i: int, j: int| 0 <= i < reg2.len() && 0 <= j < reg2[i].1.inputs@.len() implies #[trigger] input_below(
        reg2,
        reg2[i].1.inputs@[j],
        i,
    ) by {
        if i < reg.len() {
            assert(reg2[i] == reg[i]);
            assert(input_below(reg, reg[i].1.inputs@[j], i));
        } else {
            assert(input_below(reg, x.1.inputs@[j], reg.len() as int));
        }
        match reg2[i].1.inputs@[j] {
            NodeKind::Source(_) => {},
            NodeKind::Derived(d) => {
                assert(has_key(reg, d.key));
            },
        }
    }
    assert forall|i: int| 0 <= i < der.len() implies node_ok(src, par, reg2, der, e, (#[trigger] der[i]).0, der[i].1) by {
        let id = der[i].0;
        assert(node_ok(src, par, reg, der, e, id, der[i].1));
        assert(has_key(reg, id.key));
        lemma_denote_fuel_extend(reg, x, src, par, NodeKind::Derived(id), reg2.len());
        lemma_denote_fuel(reg, src, par, NodeKind::Derived(id), reg2.len(), reg.len());
    }
}

} // verus!

verus! {

/// Values from scratch of nodes with interned arguments do not change as
/// more values are interned.
pub proof fn lemma_denote_fuel_params(
    reg: Seq<(Key, Recipe)>,
    src: Seq<(Key, SourceNode)>,
    p1: Seq<ParamValue>,
    p2: Seq<ParamValue>,
    k: NodeKind,
    f: nat,
)
    requires
        registry_wf(reg),
        forall|i: int, j: int|
            0 <= i < reg.len() && 0 <= j < reg[i].1.inputs@.len() ==> #[trigger] param_ok(
                p1,
                reg[i].1.inputs@[j],
            ),
        p1.len() <= p2.len(),
        forall|i: int| 0 <= i < p1.len() ==> #[trigger] p2[i] == p1[i],
        registered(reg, k),
        param_ok(p1, k),
    ensures
        denote_fuel(reg, src, p1, k, f) == denote_fuel(reg, src, p2, k, f),
    decreases f,
{
    match k {
        NodeKind::Source(_) => {},
        NodeKind::Derived(d) => {
            if f > 0 {
                let i = key_index(reg, d.key);
                let r = recipe_of(reg, d.key);
                let a = denote_list(reg, src, p1, r.inputs@, (f - 1) as nat);
                let b = denote_list(reg, src, p2, r.inputs@, (f - 1) as nat);
                assert forall|j: int| 0 <= j < r.inputs@.len() implies a[j] == b[j] by {
                    assert(input_below(reg, reg[i].1.inputs@[j], i));
                    assert(param_ok(p1, reg[i].1.inputs@[j]));
                    lemma_denote_fuel_params(reg, src, p1, p2, r.inputs@[j], (f - 1) as nat);
                }
                assert(a =~= b);
                assert(param_int(p1, d.param_id) == param_int(p2, d.param_id));
            }
        },
    }
}

/// Interning more values keeps the invariant.
pub proof fn lemma_inv_params_grow(
    src: Seq<(Key, SourceNode)>,
    p1: Seq<ParamValue>,
    p2: Seq<ParamValue>,
    reg: Seq<(Key, Recipe)>,
    der: Seq<(DerivedNodeId, DerivedNode)>,
    e: u64,
)
    requires
        engine_inv(src, p1, reg, der, e),
        p1.len() <= p2.len(),
        forall|i: int| 0 <= i < p1.len() ==> #[trigger] p2[i] == p1[i],
    ensures
        engine_inv(src, p2, reg, der, e),
{
    assert forall|i: int, j: int| 0 <= i < reg.len() && 0 <= j < reg[i].1.inputs@.len() implies #[trigger] param_ok(
        p2,
        reg[i].1.inputs@[j],
    ) by {
        assert(param_ok(p1, reg[i].1.inputs@[j]));
    }
    assert forall|i: int| 0 <= i < der.len() implies node_ok(src, p2, reg, der, e, (#[trigger] der[i]).0, der[i].1) by {
        let id = der[i].0;
        assert(node_ok(src, p1, reg, der, e, id, der[i].1));
        assert(param_int(p1, id.param_id) == param_int(p2, id.param_id));
        lemma_denote_fuel_params(reg, src, p1, p2, NodeKind::Derived(id), reg.len());
    }
}

} // verus!

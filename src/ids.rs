use vstd::prelude::*;

verus! {

/// The database's version counter. Every source write advances it.
#[derive(Clone, Copy, Debug, PartialEq, Eq, Structural)]
pub struct Epoch {
    pub value: u64,
}

/// The identity of one source slot, or of one registered derived function.
#[derive(Clone, Copy, Debug, PartialEq, Eq, Structural, Hash)]
pub struct Key {
    pub id: u64,
}

/// The identity of one interned argument value: its position in the arena.
#[derive(Clone, Copy, Debug, PartialEq, Eq, Structural, Hash, Default)]
pub struct ParamId {
    pub index: u64,
}

/// The identity of one memoized call: a function's key and its argument.
#[derive(Clone, Copy, Debug, PartialEq, Eq, Structural, Hash)]
pub struct DerivedNodeId {
    pub key: Key,
    pub param_id: ParamId,
}

impl DerivedNodeId {
    pub fn new(key: Key, param_id: ParamId) -> (r: Self)
        ensures
            r.key == key,
            r.param_id == param_id,
    {
        DerivedNodeId { key, param_id }
    }
}

/// Either kind of node that a computation can read and that can go stale.
#[derive(Clone, Copy, Debug, PartialEq, Eq, Structural, Hash)]
pub enum NodeKind {
    Source(Key),
    Derived(DerivedNodeId),
}

} // verus!

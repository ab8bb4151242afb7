use vstd::prelude::*;
use crate::ids::{Epoch, NodeKind};

verus! {

/// Whether a resolve produced a value that differs from the one stored before.
#[derive(Clone, Copy, Debug, PartialEq, Eq, Structural)]
pub enum DidRecalculate {
    Recalculated,
    NotRecalculated,
}

/// One read made by a computation: the node read and that node's
/// `time_updated` as it was seen.
#[derive(Clone, Copy, Debug, PartialEq, Eq, Structural)]
pub struct Dependency {
    pub node_to: NodeKind,
    pub time_verified_or_updated: Epoch,
}

/// The current value of one source slot and the epoch of its last write.
#[derive(Clone, Copy, Debug, PartialEq, Eq, Structural)]
pub struct SourceNode {
    pub time_updated: Epoch,
    pub value: i64,
}

/// The memoized result of one computation call. The function that
/// recomputes it is the recipe registered under its key.
#[derive(Debug)]
pub struct DerivedNode {
    /// The last epoch at which the value was known to be current.
    pub time_verified: Epoch,
    /// The last epoch at which the value changed.
    pub time_updated: Epoch,
    /// The reads of the last execution, in order.
    pub dependencies: Vec<Dependency>,
    pub value: i64,
}

/// A copy of a dependency list.
pub fn copy_dependencies(deps: &Vec<Dependency>) -> (r: Vec<Dependency>)
    ensures
        r@ == deps@,
{
    let mut r: Vec<Dependency> = Vec::new();
    let mut i: usize = 0;
    while i < deps.len()
        invariant
            0 <= i <= deps@.len(),
            r@ == deps@.subrange(0, i as int),
        decreases deps@.len() - i,
    {
        r.push(deps[i]);
        i = i + 1;
        assert(r@ =~= deps@.subrange(0, i as int));
    }
    assert(r@ =~= deps@);
    r
}

impl DerivedNode {
    /// A copy of this node.
    pub fn duplicate(&self) -> (r: DerivedNode)
        ensures
            r.time_verified == self.time_verified,
            r.time_updated == self.time_updated,
            r.dependencies@ == self.dependencies@,
            r.value == self.value,
    {
        DerivedNode {
            time_verified: self.time_verified,
            time_updated: self.time_updated,
            dependencies: copy_dependencies(&self.dependencies),
            value: self.value,
        }
    }

    /// Takes the dependencies and verification time of a fresh execution;
    /// takes its value and update time only where the value differs.
    /// Returns whether the value changed.
    pub fn update(&mut self, other: DerivedNode) -> (changed: bool)
        ensures
            changed == (old(self).value != other.value),
            final(self).dependencies@ == other.dependencies@,
            final(self).time_verified == other.time_verified,
            final(self).value == other.value,
            final(self).time_updated == (if changed {
                other.time_updated
            } else {
                old(self).time_updated
            }),
    {
        self.dependencies = other.dependencies;
        self.time_verified = other.time_verified;
        if self.value != other.value {
            self.value = other.value;
            self.time_updated = other.time_updated;
            true
        } else {
            false
        }
    }
}

} // verus!

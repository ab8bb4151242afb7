use vstd::prelude::*;
use dashmap::DashMap;
use crate::ids::{DerivedNodeId, Key};
use crate::model::{has_key, keys_unique};
use crate::node::{DerivedNode, SourceNode};
use crate::recipe::Recipe;

verus! {

/// The map from each stored derived node's id to its position in the table.
pub type DerivedIndex = DashMap<DerivedNodeId, u64>;

/// The entries of a derived index.
pub uninterp spec fn derived_index_entries(m: DerivedIndex) -> Map<DerivedNodeId, u64>;

/// Relies on `DashMap::new`: a new map holds no entry.
#[verifier::external_body]
fn derived_index_new() -> (r: DerivedIndex)
    ensures
        derived_index_entries(r).dom() == Set::<DerivedNodeId>::empty(),
{
    DashMap::new()
}

/// Relies on `DashMap::get`: the value stored under `k`, copied out of the
/// read guard. Keys compare by the derived `Eq` and `Hash` of `DerivedNodeId`.
#[verifier::external_body]
fn derived_index_get(m: &DerivedIndex, k: &DerivedNodeId) -> (r: Option<u64>)
    ensures
        r == (if derived_index_entries(*m).dom().contains(*k) {
            Some(derived_index_entries(*m)[*k])
        } else {
            None::<u64>
        }),
{
    m.get(k).map(|e| *e)
}

/// Relies on `DashMap::insert`: the entry under `k` becomes `v`, and the value
/// it displaces, if any, is returned.
#[verifier::external_body]
fn derived_index_insert(m: &mut DerivedIndex, k: DerivedNodeId, v: u64) -> (r: Option<u64>)
    ensures
        derived_index_entries(*final(m)) == derived_index_entries(*old(m)).insert(k, v),
        r == (if derived_index_entries(*old(m)).dom().contains(k) {
            Some(derived_index_entries(*old(m))[k])
        } else {
            None::<u64>
        }),
{
    m.insert(k, v)
}

/// The memo table: derived nodes in order of creation, with a concurrent
/// index from each id to its position.
pub struct DerivedTable {
    entries: Vec<(DerivedNodeId, DerivedNode)>,
    index: DerivedIndex,
}

impl View for DerivedTable {
    type V = Seq<(DerivedNodeId, DerivedNode)>;

    closed spec fn view(&self) -> Seq<(DerivedNodeId, DerivedNode)> {
        self.entries@
    }
}

impl DerivedTable {
    /// Ids are unique, and the index maps exactly the stored ids to their
    /// positions.
    pub closed spec fn wf(&self) -> bool {
        &&& keys_unique(self@)
        &&& forall|id: DerivedNodeId| #[trigger]
            derived_index_entries(self.index).dom().contains(id) <==> has_key(self@, id)
        &&& forall|id: DerivedNodeId| #[trigger]
            derived_index_entries(self.index).dom().contains(id) ==> (derived_index_entries(
                self.index,
            )[id] as int) < self@.len() && self@[derived_index_entries(self.index)[id] as int].0 == id
    }

    pub fn new() -> (r: Self)
        ensures
            r.wf(),
            r@ == Seq::<(DerivedNodeId, DerivedNode)>::empty(),
    {
        DerivedTable { entries: Vec::new(), index: derived_index_new() }
    }

    pub fn len(&self) -> (r: usize)
        ensures
            r == self@.len(),
    {
        self.entries.len()
    }

    pub fn entry(&self, i: usize) -> (r: &(DerivedNodeId, DerivedNode))
        requires
            i < self@.len(),
        ensures
            *r == self@[i as int],
    {
        &self.entries[i]
    }

    /// The position of `id`, if it is stored.
    pub fn find(&self, id: DerivedNodeId) -> (r: Option<usize>)
        requires
            self.wf(),
        ensures
            match r {
                Some(i) => i < self@.len() && self@[i as int].0 == id,
                None => !has_key(self@, id),
            },
    {
        match derived_index_get(&self.index, &id) {
            Some(i) => {
                let n = self.entries.len();
                if i < n as u64 {
                    Some(i as usize)
                } else {
                    None
                }
            },
            None => None,
        }
    }

    /// Appends a node for an id not stored yet.
    pub fn push(&mut self, id: DerivedNodeId, node: DerivedNode)
        requires
            old(self).wf(),
            !has_key(old(self)@, id),
        ensures
            final(self).wf(),
            final(self)@ == old(self)@.push((id, node)),
    {
        let n = self.entries.len();
        let ghost before = self@;
        self.entries.push((id, node));
        derived_index_insert(&mut self.index, id, n as u64);
        proof {
            let s = self@;
            assert(keys_unique(s)) by {
                assert forall|a: int, b: int| 0 <= a < s.len() && 0 <= b < s.len() && a != b
                    implies s[a].0 != s[b].0 by {
                    if a < before.len() && b < before.len() {
                        assert(s[a] == before[a] && s[b] == before[b]);
                    } else if a < before.len() {
                        assert(s[a] == before[a]);
                    } else if b < before.len() {
                        assert(s[b] == before[b]);
                    }
                }
            }
            assert forall|x: DerivedNodeId| #[trigger]
                derived_index_entries(self.index).dom().contains(x) <==> has_key(s, x) by {
                if x == id {
                    assert(s[n as int].0 == id);
                } else {
                    if has_key(s, x) {
                        let k = choose|k: int| 0 <= k < s.len() && s[k].0 == x;
                        assert(k < before.len());
                        assert(before[k].0 == x);
                    }
                    if has_key(before, x) {
                        let k = choose|k: int| 0 <= k < before.len() && before[k].0 == x;
                        assert(s[k].0 == x);
                    }
                }
            }
            assert forall|x: DerivedNodeId| #[trigger]
                derived_index_entries(self.index).dom().contains(x) implies (derived_index_entries(
                self.index,
            )[x] as int) < s.len() && s[derived_index_entries(self.index)[x] as int].0 == x by {
                if x != id {
                    let k = derived_index_entries(old(self).index)[x] as int;
                    assert(s[k] == before[k]);
                }
            }
        }
    }

    /// Replaces the node at position `i`, keeping its id.
    pub fn set(&mut self, i: usize, node: DerivedNode)
        requires
            old(self).wf(),
            i < old(self)@.len(),
        ensures
            final(self).wf(),
            final(self)@ == old(self)@.update(i as int, (old(self)@[i as int].0, node)),
    {
        let id = self.entries[i].0;
        let ghost before = self@;
        self.entries[i] = (id, node);
        proof {
            let s = self@;
            assert forall|a: int| 0 <= a < s.len() implies (#[trigger] s[a]).0 == before[a].0 by {}
            assert forall|x: DerivedNodeId| #[trigger] has_key(s, x) == has_key(before, x) by {
                if has_key(s, x) {
                    let k = choose|k: int| 0 <= k < s.len() && s[k].0 == x;
                    assert(before[k].0 == x);
                }
                if has_key(before, x) {
                    let k = choose|k: int| 0 <= k < before.len() && before[k].0 == x;
                    assert(s[k].0 == x);
                }
            }
        }
    }
}


/// The map from each key of a table keyed by `Key` to its position.
pub type KeyIndex = DashMap<Key, u64>;

/// The entries of a key index.
pub uninterp spec fn key_index_entries(m: KeyIndex) -> Map<Key, u64>;

/// Relies on `DashMap::new`: a new map holds no entry.
#[verifier::external_body]
fn key_index_new() -> (r: KeyIndex)
    ensures
        key_index_entries(r).dom() == Set::<Key>::empty(),
{
    DashMap::new()
}

/// Relies on `DashMap::get`: the value stored under `k`, copied out of the
/// read guard. Keys compare by the derived `Eq` and `Hash` of `Key`.
#[verifier::external_body]
fn key_index_get(m: &KeyIndex, k: &Key) -> (r: Option<u64>)
    ensures
        r == (if key_index_entries(*m).dom().contains(*k) {
            Some(key_index_entries(*m)[*k])
        } else {
            None::<u64>
        }),
{
    m.get(k).map(|e| *e)
}

/// Relies on `DashMap::insert`: the entry under `k` becomes `v`, and the value
/// it displaces, if any, is returned.
#[verifier::external_body]
fn key_index_insert(m: &mut KeyIndex, k: Key, v: u64) -> (r: Option<u64>)
    ensures
        key_index_entries(*final(m)) == key_index_entries(*old(m)).insert(k, v),
        r == (if key_index_entries(*old(m)).dom().contains(k) {
            Some(key_index_entries(*old(m))[k])
        } else {
            None::<u64>
        }),
{
    m.insert(k, v)
}

/// The source table: written slots in order of first write, with a
/// concurrent index from each key to its position.
pub struct SourceTable {
    entries: Vec<(Key, SourceNode)>,
    index: KeyIndex,
}

impl View for SourceTable {
    type V = Seq<(Key, SourceNode)>;

    closed spec fn view(&self) -> Seq<(Key, SourceNode)> {
        self.entries@
    }
}

impl SourceTable {
    /// Keys are unique, and the index maps exactly the written keys to their
    /// positions.
    pub closed spec fn wf(&self) -> bool {
        &&& keys_unique(self@)
        &&& forall|id: Key| #[trigger]
            key_index_entries(self.index).dom().contains(id) <==> has_key(self@, id)
        &&& forall|id: Key| #[trigger]
            key_index_entries(self.index).dom().contains(id) ==> (key_index_entries(
                self.index,
            )[id] as int) < self@.len() && self@[key_index_entries(self.index)[id] as int].0 == id
    }

    pub fn new() -> (r: Self)
        ensures
            r.wf(),
            r@ == Seq::<(Key, SourceNode)>::empty(),
    {
        SourceTable { entries: Vec::new(), index: key_index_new() }
    }

    pub fn len(&self) -> (r: usize)
        ensures
            r == self@.len(),
    {
        self.entries.len()
    }

    pub fn entry(&self, i: usize) -> (r: &(Key, SourceNode))
        requires
            i < self@.len(),
        ensures
            *r == self@[i as int],
    {
        &self.entries[i]
    }

    /// The position of `id`, if it is written.
    pub fn find(&self, id: Key) -> (r: Option<usize>)
        requires
            self.wf(),
        ensures
            match r {
                Some(i) => i < self@.len() && self@[i as int].0 == id,
                None => !has_key(self@, id),
            },
    {
        match key_index_get(&self.index, &id) {
            Some(i) => {
                let n = self.entries.len();
                if i < n as u64 {
                    Some(i as usize)
                } else {
                    None
                }
            },
            None => None,
        }
    }

    /// Appends a slot for a key not written yet.
    pub fn push(&mut self, id: Key, node: SourceNode)
        requires
            old(self).wf(),
            !has_key(old(self)@, id),
        ensures
            final(self).wf(),
            final(self)@ == old(self)@.push((id, node)),
    {
        let n = self.entries.len();
        let ghost before = self@;
        self.entries.push((id, node));
        key_index_insert(&mut self.index, id, n as u64);
        proof {
            let s = self@;
            assert(keys_unique(s)) by {
                assert forall|a: int, b: int| 0 <= a < s.len() && 0 <= b < s.len() && a != b
                    implies s[a].0 != s[b].0 by {
                    if a < before.len() && b < before.len() {
                        assert(s[a] == before[a] && s[b] == before[b]);
                    } else if a < before.len() {
                        assert(s[a] == before[a]);
                    } else if b < before.len() {
                        assert(s[b] == before[b]);
                    }
                }
            }
            assert forall|x: Key| #[trigger]
                key_index_entries(self.index).dom().contains(x) <==> has_key(s, x) by {
                if x == id {
                    assert(s[n as int].0 == id);
                } else {
                    if has_key(s, x) {
                        let k = choose|k: int| 0 <= k < s.len() && s[k].0 == x;
                        assert(k < before.len());
                        assert(before[k].0 == x);
                    }
                    if has_key(before, x) {
                        let k = choose|k: int| 0 <= k < before.len() && before[k].0 == x;
                        assert(s[k].0 == x);
                    }
                }
            }
            assert forall|x: Key| #[trigger]
                key_index_entries(self.index).dom().contains(x) implies (key_index_entries(
                self.index,
            )[x] as int) < s.len() && s[key_index_entries(self.index)[x] as int].0 == x by {
                if x != id {
                    let k = key_index_entries(old(self).index)[x] as int;
                    assert(s[k] == before[k]);
                }
            }
        }
    }

    /// Replaces the slot at position `i`, keeping its key.
    pub fn set(&mut self, i: usize, node: SourceNode)
        requires
            old(self).wf(),
            i < old(self)@.len(),
        ensures
            final(self).wf(),
            final(self)@ == old(self)@.update(i as int, (old(self)@[i as int].0, node)),
    {
        let id = self.entries[i].0;
        let ghost before = self@;
        self.entries[i] = (id, node);
        proof {
            let s = self@;
            assert forall|a: int| 0 <= a < s.len() implies (#[trigger] s[a]).0 == before[a].0 by {}
            assert forall|x: Key| #[trigger] has_key(s, x) == has_key(before, x) by {
                if has_key(s, x) {
                    let k = choose|k: int| 0 <= k < s.len() && s[k].0 == x;
                    assert(before[k].0 == x);
                }
                if has_key(before, x) {
                    let k = choose|k: int| 0 <= k < before.len() && before[k].0 == x;
                    assert(s[k].0 == x);
                }
            }
        }
    }
}


/// The registry: functions in order of registration, with a concurrent
/// index from each key to its position.
pub struct FunctionTable {
    entries: Vec<(Key, Recipe)>,
    index: KeyIndex,
}

impl View for FunctionTable {
    type V = Seq<(Key, Recipe)>;

    closed spec fn view(&self) -> Seq<(Key, Recipe)> {
        self.entries@
    }
}

impl FunctionTable {
    /// Keys are unique, and the index maps exactly the registered keys to their
    /// positions.
    pub closed spec fn wf(&self) -> bool {
        &&& keys_unique(self@)
        &&& forall|id: Key| #[trigger]
            key_index_entries(self.index).dom().contains(id) <==> has_key(self@, id)
        &&& forall|id: Key| #[trigger]
            key_index_entries(self.index).dom().contains(id) ==> (key_index_entries(
                self.index,
            )[id] as int) < self@.len() && self@[key_index_entries(self.index)[id] as int].0 == id
    }

    pub fn new() -> (r: Self)
        ensures
            r.wf(),
            r@ == Seq::<(Key, Recipe)>::empty(),
    {
        FunctionTable { entries: Vec::new(), index: key_index_new() }
    }

    pub fn len(&self) -> (r: usize)
        ensures
            r == self@.len(),
    {
        self.entries.len()
    }

    pub fn entry(&self, i: usize) -> (r: &(Key, Recipe))
        requires
            i < self@.len(),
        ensures
            *r == self@[i as int],
    {
        &self.entries[i]
    }

    /// The position of `id`, if it is registered.
    pub fn find(&self, id: Key) -> (r: Option<usize>)
        requires
            self.wf(),
        ensures
            match r {
                Some(i) => i < self@.len() && self@[i as int].0 == id,
                None => !has_key(self@, id),
            },
    {
        match key_index_get(&self.index, &id) {
            Some(i) => {
                let n = self.entries.len();
                if i < n as u64 {
                    Some(i as usize)
                } else {
                    None
                }
            },
            None => None,
        }
    }

    /// Appends a function under a key not registered yet.
    pub fn push(&mut self, id: Key, recipe: Recipe)
        requires
            old(self).wf(),
            !has_key(old(self)@, id),
        ensures
            final(self).wf(),
            final(self)@ == old(self)@.push((id, recipe)),
    {
        let n = self.entries.len();
        let ghost before = self@;
        self.entries.push((id, recipe));
        key_index_insert(&mut self.index, id, n as u64);
        proof {
            let s = self@;
            assert(keys_unique(s)) by {
                assert forall|a: int, b: int| 0 <= a < s.len() && 0 <= b < s.len() && a != b
                    implies s[a].0 != s[b].0 by {
                    if a < before.len() && b < before.len() {
                        assert(s[a] == before[a] && s[b] == before[b]);
                    } else if a < before.len() {
                        assert(s[a] == before[a]);
                    } else if b < before.len() {
                        assert(s[b] == before[b]);
                    }
                }
            }
            assert forall|x: Key| #[trigger]
                key_index_entries(self.index).dom().contains(x) <==> has_key(s, x) by {
                if x == id {
                    assert(s[n as int].0 == id);
                } else {
                    if has_key(s, x) {
                        let k = choose|k: int| 0 <= k < s.len() && s[k].0 == x;
                        assert(k < before.len());
                        assert(before[k].0 == x);
                    }
                    if has_key(before, x) {
                        let k = choose|k: int| 0 <= k < before.len() && before[k].0 == x;
                        assert(s[k].0 == x);
                    }
                }
            }
            assert forall|x: Key| #[trigger]
                key_index_entries(self.index).dom().contains(x) implies (key_index_entries(
                self.index,
            )[x] as int) < s.len() && s[key_index_entries(self.index)[x] as int].0 == x by {
                if x != id {
                    let k = key_index_entries(old(self).index)[x] as int;
                    assert(s[k] == before[k]);
                }
            }
        }
    }
}

} // verus!

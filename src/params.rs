use vstd::prelude::*;
use dashmap::DashMap;
use crate::ids::ParamId;

verus! {

/// An argument value that a derived computation can be called with.
/// The variant tag keeps values of different kinds apart, whatever their
/// contents.
#[derive(Clone, Copy, Debug, PartialEq, Eq, Structural, Hash)]
pub enum ParamValue {
    Unit,
    Bool(bool),
    Int(i64),
}

#[verifier::external_type_specification]
#[verifier::external_body]
#[verifier::reject_recursive_types(K)]
#[verifier::reject_recursive_types(V)]
#[verifier::reject_recursive_types(S)]
pub struct ExDashMap<K, V, S>(DashMap<K, V, S>);

/// The map from each interned value to its position in the arena.
pub type ParamIndex = DashMap<ParamValue, u64>;

/// The entries of a param index.
pub uninterp spec fn index_entries(m: ParamIndex) -> Map<ParamValue, u64>;

/// Relies on `DashMap::new`: a new map holds no entry.
#[verifier::external_body]
fn index_new() -> (r: ParamIndex)
    ensures
        index_entries(r).dom() == Set::<ParamValue>::empty(),
{
    DashMap::new()
}

/// Relies on `DashMap::get`: the value stored under `k`, copied out of the
/// read guard. Keys compare by the derived `Eq` and `Hash` of `ParamValue`.
#[verifier::external_body]
fn index_get(m: &ParamIndex, k: &ParamValue) -> (r: Option<u64>)
    ensures
        r == (if index_entries(*m).dom().contains(*k) {
            Some(index_entries(*m)[*k])
        } else {
            None::<u64>
        }),
{
    m.get(k).map(|e| *e)
}

/// Relies on `DashMap::insert`: the entry under `k` becomes `v`, and the value
/// it displaces, if any, is returned.
#[verifier::external_body]
fn index_insert(m: &mut ParamIndex, k: ParamValue, v: u64) -> (r: Option<u64>)
    ensures
        index_entries(*final(m)) == index_entries(*old(m)).insert(k, v),
        r == (if index_entries(*old(m)).dom().contains(k) {
            Some(index_entries(*old(m))[k])
        } else {
            None::<u64>
        }),
{
    m.insert(k, v)
}

/// An append-only arena of interned argument values, each stored once, with
/// a concurrent index from each value to its position.
pub struct ParamArena {
    values: Vec<ParamValue>,
    index: ParamIndex,
}

/// No value occurs twice in `s`.
pub open spec fn no_duplicates(s: Seq<ParamValue>) -> bool {
    forall|i: int, j: int| 0 <= i < s.len() && 0 <= j < s.len() && i != j ==> s[i] != s[j]
}

/// What `intern` does to an arena's contents: append the value unless it is
/// there already.
pub open spec fn interned(s: Seq<ParamValue>, v: ParamValue) -> Seq<ParamValue> {
    if s.contains(v) {
        s
    } else {
        s.push(v)
    }
}

impl ParamArena {
    pub closed spec fn view(&self) -> Seq<ParamValue> {
        self.values@
    }

    /// No value is stored twice, and the index maps exactly the stored
    /// values to their positions.
    pub closed spec fn wf(&self) -> bool {
        &&& no_duplicates(self@)
        &&& forall|v: ParamValue| #[trigger]
            index_entries(self.index).dom().contains(v) <==> self@.contains(v)
        &&& forall|v: ParamValue| #[trigger]
            index_entries(self.index).dom().contains(v) ==> (index_entries(self.index)[v] as int)
                < self@.len() && self@[index_entries(self.index)[v] as int] == v
    }

    pub fn new() -> (r: Self)
        ensures
            r@ == Seq::<ParamValue>::empty(),
            r.wf(),
    {
        ParamArena { values: Vec::new(), index: index_new() }
    }

    /// Stores `v` unless an equal value is stored; returns the id of the
    /// stored value.
    pub fn intern(&mut self, v: ParamValue) -> (r: ParamId)
        requires
            old(self).wf(),
            old(self)@.len() < usize::MAX,
        ensures
            final(self).wf(),
            no_duplicates(final(self)@),
            final(self)@ == interned(old(self)@, v),
            (r.index as int) < final(self)@.len(),
            final(self)@[r.index as int] == v,
    {
        match index_get(&self.index, &v) {
            Some(i) => {
                assert(self@.contains(v));
                ParamId { index: i }
            },
            None => {
                let n = self.values.len();
                assert(!self@.contains(v));
                let ghost before = self@;
                self.values.push(v);
                index_insert(&mut self.index, v, n as u64);
                proof {
                    lemma_interned(before, v);
                    assert forall|w: ParamValue| #[trigger]
                        index_entries(self.index).dom().contains(w) <==> self@.contains(w) by {
                        if w != v && self@.contains(w) {
                            let k = choose|k: int| 0 <= k < self@.len() && self@[k] == w;
                            assert(k < before.len());
                            assert(before[k] == w);
                        }
                        if w == v {
                            assert(self@[n as int] == v);
                        }
                        if w != v && index_entries(self.index).dom().contains(w) {
                            assert(index_entries(old(self).index).dom().contains(w));
                            assert(before.contains(w));
                            let k = choose|k: int| 0 <= k < before.len() && before[k] == w;
                            assert(self@[k] == w);
                        }
                    }
                    assert forall|w: ParamValue| #[trigger]
                        index_entries(self.index).dom().contains(w) implies (index_entries(self.index)[w] as int)
                        < self@.len() && self@[index_entries(self.index)[w] as int] == w by {
                        if w != v {
                            assert(before.contains(w));
                        }
                    }
                }
                ParamId { index: n as u64 }
            },
        }
    }

    pub fn len(&self) -> (r: usize)
        ensures
            r == self@.len(),
    {
        self.values.len()
    }

    /// The value stored under `id`, if any.
    pub fn get(&self, id: ParamId) -> (r: Option<ParamValue>)
        ensures
            r == (if (id.index as int) < self@.len() {
                Some(self@[id.index as int])
            } else {
                None::<ParamValue>
            }),
    {
        if id.index < self.values.len() as u64 {
            Some(self.values[id.index as usize])
        } else {
            None
        }
    }
}

/// Interning keeps the arena free of duplicates and keeps what was stored.
pub proof fn lemma_interned(arena: Seq<ParamValue>, v: ParamValue)
    requires
        no_duplicates(arena),
    ensures
        no_duplicates(interned(arena, v)),
        interned(arena, v).contains(v),
        arena.len() <= interned(arena, v).len(),
        forall|i: int| 0 <= i < arena.len() ==> #[trigger] interned(arena, v)[i] == arena[i],
{
    let a1 = interned(arena, v);
    if !arena.contains(v) {
        assert(a1[arena.len() as int] == v);
        assert forall|i: int, j: int| 0 <= i < a1.len() && 0 <= j < a1.len() && i != j
            implies a1[i] != a1[j] by {
            if i == arena.len() {
                if j < arena.len() {
                    assert(arena[j] == a1[j]);
                }
            } else if j == arena.len() {
                assert(arena[i] == a1[i]);
            }
        }
    }
}

/// Interning keeps what was stored: the arena before a call is a prefix of
/// the arena after it.
pub proof fn lemma_interned_prefix(arena: Seq<ParamValue>, v: ParamValue)
    requires
        no_duplicates(arena),
    ensures
        arena.len() <= interned(arena, v).len(),
        forall|i: int| 0 <= i < arena.len() ==> #[trigger] interned(arena, v)[i] == arena[i],
{
    lemma_interned(arena, v);
}

/// Two interned values share an id exactly when they are equal, however
/// many values were interned between the two calls: values of different
/// variants never share an id. `later` is any arena that the arena `earlier`
/// grew into by interning.
pub proof fn lemma_intern_dedup(
    earlier: Seq<ParamValue>,
    later: Seq<ParamValue>,
    v1: ParamValue,
    v2: ParamValue,
    id1: ParamId,
    id2: ParamId,
)
    requires
        no_duplicates(later),
        earlier.len() <= later.len(),
        forall|i: int| 0 <= i < earlier.len() ==> #[trigger] later[i] == earlier[i],
        (id1.index as int) < earlier.len(),
        earlier[id1.index as int] == v1,
        (id2.index as int) < later.len(),
        later[id2.index as int] == v2,
    ensures
        (id1 == id2) == (v1 == v2),
{
    assert(later[id1.index as int] == v1);
}

} // verus!

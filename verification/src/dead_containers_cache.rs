//! The cache of containers known to be deleted.

use vstd::prelude::*;
use crate::types::ContainerIdx;

verus! {

/// A hash map from container indices to flags, kept in a
/// `rustc_hash::FxHashMap`. Its contents are named by [`idx_flag_map_contents`].
#[verifier::external_body]
pub struct IdxFlagMap {
    inner: rustc_hash::FxHashMap<ContainerIdx, bool>,
}

/// The entries of an [`IdxFlagMap`].
pub uninterp spec fn idx_flag_map_contents(m: IdxFlagMap) -> Map<ContainerIdx, bool>;

impl IdxFlagMap {
    /// `FxHashMap::default`: an empty map.
    #[verifier::external_body]
    pub(crate) fn new() -> (r: IdxFlagMap)
        ensures
            idx_flag_map_contents(r).is_empty(),
    {
        IdxFlagMap { inner: rustc_hash::FxHashMap::default() }
    }

    /// `HashMap::clear`: removes every entry.
    #[verifier::external_body]
    pub(crate) fn clear(&mut self)
        ensures
            idx_flag_map_contents(*final(self)).is_empty(),
    {
        self.inner.clear()
    }

    /// `HashMap::retain` keeping the entries whose flag is set.
    #[verifier::external_body]
    pub(crate) fn retain_set(&mut self)
        ensures
            idx_flag_map_contents(*final(self)) == idx_flag_map_contents(*old(self)).restrict(
                idx_flag_map_contents(*old(self)).dom().filter(
                    |k: ContainerIdx| idx_flag_map_contents(*old(self))[k],
                ),
            ),
    {
        self.inner.retain(|_, flag| *flag)
    }

    /// `HashMap::contains_key`.
    #[verifier::external_body]
    pub(crate) fn contains_key(&self, k: ContainerIdx) -> (r: bool)
        ensures
            r == idx_flag_map_contents(*self).contains_key(k),
    {
        self.inner.contains_key(&k)
    }

    /// `HashMap::insert`, dropping the previous flag.
    #[verifier::external_body]
    pub(crate) fn insert(&mut self, k: ContainerIdx, flag: bool)
        ensures
            idx_flag_map_contents(*final(self)) == idx_flag_map_contents(*old(self)).insert(k, flag),
    {
        self.inner.insert(k, flag);
    }

    /// `HashMap::remove`, dropping the removed flag.
    #[verifier::external_body]
    pub(crate) fn remove(&mut self, k: ContainerIdx)
        ensures
            idx_flag_map_contents(*final(self)) == idx_flag_map_contents(*old(self)).remove(k),
    {
        self.inner.remove(&k);
    }
}

/// Containers found deleted, each mapped to `true`.
pub struct DeadContainersCache {
    cache: IdxFlagMap,
}

impl View for DeadContainersCache {
    type V = Map<ContainerIdx, bool>;

    closed spec fn view(&self) -> Map<ContainerIdx, bool> {
        idx_flag_map_contents(self.cache)
    }
}

impl DeadContainersCache {
    pub fn new() -> (r: DeadContainersCache)
        ensures
            r@ == Map::<ContainerIdx, bool>::empty(),
    {
        let r = DeadContainersCache { cache: IdxFlagMap::new() };
        assert(r@ =~= Map::<ContainerIdx, bool>::empty());
        r
    }

    /// Forget every cached container.
    pub fn clear(&mut self)
        ensures
            final(self)@ == Map::<ContainerIdx, bool>::empty(),
    {
        self.cache.clear();
        assert(self@ =~= Map::<ContainerIdx, bool>::empty());
    }

    /// Forget the containers cached as alive; those cached as deleted stay.
    pub fn clear_alive(&mut self)
        ensures
            final(self)@ == old(self)@.restrict(old(self)@.dom().filter(|k: ContainerIdx| old(self)@[k])),
    {
        self.cache.retain_set();
    }

    /// `idx` is cached.
    pub fn contains(&self, idx: ContainerIdx) -> (r: bool)
        ensures
            r == self@.contains_key(idx),
    {
        self.cache.contains_key(idx)
    }

    /// Cache `idx` as deleted.
    pub fn mark_deleted(&mut self, idx: ContainerIdx)
        ensures
            final(self)@ == old(self)@.insert(idx, true),
    {
        self.cache.insert(idx, true);
    }

    /// Cache every container of `idxs` as deleted when `deleted` holds;
    /// forget them otherwise.
    pub fn set_all(&mut self, idxs: &Vec<ContainerIdx>, deleted: bool)
        ensures
            forall|k: ContainerIdx| #[trigger] final(self)@.contains_key(k) <==> if idxs@.contains(k) {
                deleted
            } else {
                old(self)@.contains_key(k)
            },
            forall|k: ContainerIdx| #[trigger] final(self)@.contains_key(k) ==> final(self)@[k] == if idxs@.contains(k) {
                true
            } else {
                old(self)@[k]
            },
    {
        let mut i: usize = 0;
        while i < idxs.len()
            invariant
                i <= idxs@.len(),
                forall|k: ContainerIdx| #[trigger] self@.contains_key(k) <==> if idxs@.take(i as int).contains(k) {
                    deleted
                } else {
                    old(self)@.contains_key(k)
                },
                forall|k: ContainerIdx| #[trigger] self@.contains_key(k) ==> self@[k] == if idxs@.take(i as int).contains(k) {
                    true
                } else {
                    old(self)@[k]
                },
            decreases idxs@.len() - i,
        {
            let v = idxs[i];
            if deleted {
                self.mark_deleted(v);
            } else {
                self.forget(v);
            }
            let ghost t0 = idxs@.take(i as int);
            let ghost t1 = idxs@.take(i + 1);
            assert forall|k: ContainerIdx| t1.contains(k) <==> (t0.contains(k) || k == v) by {
                assert(t1 =~= t0.push(v));
                if t0.contains(k) {
                    let j = choose|j: int| 0 <= j < t0.len() && t0[j] == k;
                    assert(t1[j] == k);
                }
                if k == v {
                    assert(t1[i as int] == k);
                }
                if t1.contains(k) {
                    let j = choose|j: int| 0 <= j < t1.len() && t1[j] == k;
                    if j < i {
                        assert(t0[j] == k);
                    }
                }
            }
            i = i + 1;
        }
        assert(idxs@.take(idxs@.len() as int) =~= idxs@);
    }

    /// Forget `idx`.
    pub fn forget(&mut self, idx: ContainerIdx)
        ensures
            final(self)@ == old(self)@.remove(idx),
    {
        self.cache.remove(idx);
    }
}

} // verus!

//! Recovery of the mergeable side tables after a snapshot import: the
//! tombstones are seeded from the deleted registers of every map, then the
//! mergeable containers that have a state are registered on their parents.

use vstd::prelude::*;
use crate::doc_state::{state_at, ContainerState, ContainerStateView, DocState, DocStateView, OpLog};
use crate::lww::{apply_decisions, decisions_ok, side_tables_consistent};
use crate::map_state::{ids_view, tombstone_after, MapState, MapStateView};
use crate::mergeable::map_at;
use crate::str_map::lemma_sorted_unique;
use crate::str_map::lemma_seq_map;
use crate::types::{ContainerID, ContainerIdView, ContainerIdx, ContainerType, IdLp};

verus! {

/// Key `k` holds a deleted register.
pub open spec fn deleted_key(m: MapStateView, k: Seq<char>) -> bool {
    m.map.contains_key(k) && m.map[k].value is None
}

/// The tombstones of `m` after every deleted register has been recorded
/// as a delete of its key.
pub open spec fn seeded_tombstones(m: MapStateView) -> Map<Seq<char>, IdLp> {
    Map::new(
        |k: Seq<char>| m.tombstones.contains_key(k) || deleted_key(m, k),
        |k: Seq<char>|
            if deleted_key(m, k) {
                tombstone_after(m.tombstones, k, m.map[k].idlp())[k]
            } else {
                m.tombstones[k]
            },
    )
}

/// The state of a container after seeding: the map state of a map
/// container gets its seeded tombstones; any other state is kept.
pub open spec fn seeded_state(id: ContainerIdView, s: Option<ContainerStateView>) -> Option<ContainerStateView> {
    match s {
        Some(ContainerStateView::Mapping(m)) => if id.kind() == ContainerType::MapContainer {
            Some(ContainerStateView::Mapping(MapStateView { tombstones: seeded_tombstones(m), ..m }))
        } else {
            s
        },
        _ => s,
    }
}

/// The document after seeding every map container.
pub open spec fn seeded_doc(d: DocStateView) -> DocStateView {
    DocStateView { store: Seq::new(d.store.len(), |i: int| seeded_state(d.arena.ids[i], d.store[i])), ..d }
}

/// `c` is a mergeable container that has a state.
pub open spec fn mergeable_with_state(d: DocStateView, c: ContainerIdView) -> bool {
    &&& c.is_mergeable()
    &&& exists|i: int| 0 <= i < d.store.len() && d.store[i] is Some && d.arena.ids[i] == c
}

/// Record every deleted register of `m` as a delete of its key.
fn seed_map_tombstones(m: &mut MapState)
    requires
        old(m).wf(),
    ensures
        final(m).wf(),
        final(m)@ == (MapStateView { tombstones: seeded_tombstones(old(m)@), ..old(m)@ }),
{
    let ghost m0 = m@;
    let ghost t0 = m@.tombstones;
    let mut seeds: Vec<(String, IdLp)> = Vec::new();
    {
        let entries = m.iter();
        proof {
            lemma_sorted_unique(entries@);
            lemma_seq_map(entries@);
        }
        let mut i: usize = 0;
        while i < entries.len()
            invariant
                i <= entries@.len(),
                crate::str_map::unique_keys(entries@),
                crate::str_map::seq_map(entries@) == m0.map,
                forall|e: int| 0 <= e < entries@.len() ==> #[trigger] m0.map.contains_key(entries@[e].0@) && m0.map[entries@[e].0@] == entries@[e].1@,
                forall|j: int| 0 <= j < seeds@.len() ==> deleted_key(m0, (#[trigger] seeds@[j]).0@) && m0.map[seeds@[j].0@].idlp() == seeds@[j].1,
                forall|j: int| 0 <= j < seeds@.len() ==> exists|e: int| 0 <= e < i && entries@[e].0@ == (#[trigger] seeds@[j]).0@,
                forall|e: int| 0 <= e < i && (#[trigger] entries@[e]).1@.value is None ==> exists|j: int| 0 <= j < seeds@.len() && seeds@[j].0@ == entries@[e].0@,
                forall|j1: int, j2: int| 0 <= j1 < j2 < seeds@.len() ==> (#[trigger] seeds@[j1]).0@ != (#[trigger] seeds@[j2]).0@,
            decreases entries@.len() - i,
        {
            if entries[i].1.value.is_none() {
                let ghost before = seeds@;
                let key = entries[i].0.clone();
                let stamp = entries[i].1.idlp();
                seeds.push((key, stamp));
                proof {
                    assert(seeds@[before.len() as int].0@ == entries@[i as int].0@);
                    assert forall|j: int| 0 <= j < seeds@.len() implies exists|e: int| 0 <= e < i + 1 && entries@[e].0@ == (#[trigger] seeds@[j]).0@ by {
                        if j < before.len() {
                            assert(seeds@[j] == before[j]);
                            let e = choose|e: int| 0 <= e < i && entries@[e].0@ == before[j].0@;
                        } else {
                            assert(entries@[i as int].0@ == seeds@[j].0@);
                        }
                    }
                    assert forall|j1: int, j2: int| 0 <= j1 < j2 < seeds@.len() implies (#[trigger] seeds@[j1]).0@ != (#[trigger] seeds@[j2]).0@ by {
                        if j2 == before.len() {
                            assert(seeds@[j1] == before[j1]);
                            let e = choose|e: int| 0 <= e < i && entries@[e].0@ == before[j1].0@;
                        } else {
                            assert(seeds@[j1] == before[j1] && seeds@[j2] == before[j2]);
                        }
                    }
                    assert forall|j: int| 0 <= j < seeds@.len() implies deleted_key(m0, (#[trigger] seeds@[j]).0@) && m0.map[seeds@[j].0@].idlp() == seeds@[j].1 by {
                        if j < before.len() {
                            assert(seeds@[j] == before[j]);
                        } else {
                            assert(m0.map.contains_key(entries@[i as int].0@));
                            assert(m0.map[entries@[i as int].0@] == entries@[i as int].1@);
                        }
                    }
                    assert forall|e: int| 0 <= e < i + 1 && (#[trigger] entries@[e]).1@.value is None implies exists|j: int| 0 <= j < seeds@.len() && seeds@[j].0@ == entries@[e].0@ by {
                        if e < i {
                            let j = choose|j: int| 0 <= j < before.len() && before[j].0@ == entries@[e].0@;
                            assert(seeds@[j] == before[j]);
                        } else {
                            assert(seeds@[before.len() as int].0@ == entries@[e].0@);
                        }
                    }
                }
            }
            i = i + 1;
        }
        proof {
            assert forall|k: Seq<char>| deleted_key(m0, k) implies exists|j: int| 0 <= j < seeds@.len() && seeds@[j].0@ == k by {
                assert(crate::str_map::seq_map(entries@).contains_key(k));
                let e = choose|e: int| 0 <= e < entries@.len() && entries@[e].0@ == k;
                assert(entries@[e].1@.value is None);
            }
        }
    }
    let mut i: usize = 0;
    while i < seeds.len()
        invariant
            m.wf(),
            i <= seeds@.len(),
            m@ == (MapStateView { tombstones: m@.tombstones, ..m0 }),
            forall|j: int| 0 <= j < seeds@.len() ==> deleted_key(m0, (#[trigger] seeds@[j]).0@) && m0.map[seeds@[j].0@].idlp() == seeds@[j].1,
            forall|k: Seq<char>| deleted_key(m0, k) ==> exists|j: int| 0 <= j < seeds@.len() && seeds@[j].0@ == k,
            forall|j1: int, j2: int| 0 <= j1 < j2 < seeds@.len() ==> (#[trigger] seeds@[j1]).0@ != (#[trigger] seeds@[j2]).0@,
            forall|j: int| 0 <= j < i ==> m@.tombstones.contains_key((#[trigger] seeds@[j]).0@) && m@.tombstones[seeds@[j].0@]
                == tombstone_after(t0, seeds@[j].0@, seeds@[j].1)[seeds@[j].0@],
            forall|k: Seq<char>| #[trigger] m@.tombstones.contains_key(k) ==> t0.contains_key(k) || exists|j: int| 0 <= j < i && seeds@[j].0@ == k,
            forall|k: Seq<char>| #[trigger] t0.contains_key(k) ==> m@.tombstones.contains_key(k) && (m@.tombstones[k] == t0[k] || exists|j: int| 0 <= j < i && seeds@[j].0@ == k),
        decreases seeds@.len() - i,
    {
        let ghost tb = m@.tombstones;
        let key = seeds[i].0.clone();
        let stamp = seeds[i].1;
        let ghost kv = key@;
        m.set_mergeable_tombstone(key, stamp);
        proof {
            assert(kv == seeds@[i as int].0@);
            // `kv` was not seeded before, so its tombstone is still the original one.
            assert(tb.contains_key(kv) ==> t0.contains_key(kv) && tb[kv] == t0[kv]) by {
                if tb.contains_key(kv) {
                    if exists|j: int| 0 <= j < i && seeds@[j].0@ == kv {
                        let j = choose|j: int| 0 <= j < i && seeds@[j].0@ == kv;
                    }
                }
                if t0.contains_key(kv) {
                    if exists|j: int| 0 <= j < i && seeds@[j].0@ == kv {
                        let j = choose|j: int| 0 <= j < i && seeds@[j].0@ == kv;
                    }
                }
            }
            assert(t0.contains_key(kv) ==> tb.contains_key(kv));
            assert forall|j: int| 0 <= j < i + 1 implies m@.tombstones.contains_key((#[trigger] seeds@[j]).0@) && m@.tombstones[seeds@[j].0@]
                == tombstone_after(t0, seeds@[j].0@, seeds@[j].1)[seeds@[j].0@] by {
                if j < i {
                    assert(seeds@[j].0@ != kv);
                }
            }
            assert forall|k: Seq<char>| #[trigger] m@.tombstones.contains_key(k) implies t0.contains_key(k) || exists|j: int| 0 <= j < i + 1 && seeds@[j].0@ == k by {
                if k != kv {
                    assert(tb.contains_key(k));
                    if !t0.contains_key(k) {
                        let j = choose|j: int| 0 <= j < i && seeds@[j].0@ == k;
                    }
                }
            }
            assert forall|k: Seq<char>| #[trigger] t0.contains_key(k) implies m@.tombstones.contains_key(k) && (m@.tombstones[k] == t0[k] || exists|j: int| 0 <= j < i + 1 && seeds@[j].0@ == k) by {
                if k != kv {
                    assert(tb.contains_key(k));
                    if tb[k] != t0[k] {
                        let j = choose|j: int| 0 <= j < i && seeds@[j].0@ == k;
                    }
                }
            }
        }
        i = i + 1;
    }
    proof {
        let t = m@.tombstones;
        let target = seeded_tombstones(m0);
        assert forall|k: Seq<char>| #[trigger] t.contains_key(k) <==> target.contains_key(k) by {
            if deleted_key(m0, k) {
                let j = choose|j: int| 0 <= j < seeds@.len() && seeds@[j].0@ == k;
            }
            if t.contains_key(k) && !t0.contains_key(k) {
                let j = choose|j: int| 0 <= j < seeds@.len() && seeds@[j].0@ == k;
            }
        }
        assert forall|k: Seq<char>| #[trigger] t.contains_key(k) implies t[k] == target[k] by {
            if deleted_key(m0, k) {
                let j = choose|j: int| 0 <= j < seeds@.len() && seeds@[j].0@ == k;
            } else {
                if exists|j: int| 0 <= j < seeds@.len() && seeds@[j].0@ == k {
                    let j = choose|j: int| 0 <= j < seeds@.len() && seeds@[j].0@ == k;
                }
                assert(t0.contains_key(k));
            }
        }
        assert(t =~= target);
    }
}

impl DocState {
    /// Seed the tombstones of the container at `idx` if it is a map.
    fn seed_tombstones_at(&mut self, idx: ContainerIdx)
        requires
            old(self).wf(),
            idx < old(self)@.store.len(),
        ensures
            final(self).wf(),
            final(self)@.arena == old(self)@.arena,
            final(self)@.cache == old(self)@.cache,
            final(self)@.store == old(self)@.store.update(
                idx as int,
                seeded_state(old(self)@.arena.ids[idx as int], old(self)@.store[idx as int]),
            ),
    {
        let ghost d = self@;
        proof {
            assert(d.store.update(idx as int, seeded_state(d.arena.ids[idx as int], d.store[idx as int])).len() == d.store.len());
        }
        let kind = self.arena.idx_to_id(idx).unwrap().container_type();
        let is_map = match kind {
            ContainerType::MapContainer => true,
            _ => false,
        };
        if !is_map {
            assert(d.store.update(idx as int, seeded_state(d.arena.ids[idx as int], d.store[idx as int])) =~= d.store);
            return;
        }
        let taken = self.store.take(idx);
        match taken {
            Some(state) => {
                let new_state = match state {
                    ContainerState::Mapping(mut m) => {
                        seed_map_tombstones(&mut m);
                        ContainerState::Mapping(m)
                    },
                    other => other,
                };
                self.store.put(idx, new_state);
                assert(self@.store =~= d.store.update(idx as int, seeded_state(d.arena.ids[idx as int], d.store[idx as int]))) by {
                    assert forall|i: int| 0 <= i < self@.store.len() && i != idx implies self@.store[i] == d.store[i] by {
                        assert(state_at(d.store.update(idx as int, None), i) == d.store[i]);
                    }
                }
            },
            None => {
                assert(self@.store =~= d.store.update(idx as int, seeded_state(d.arena.ids[idx as int], d.store[idx as int])));
            },
        }
        proof {
            crate::lww::lemma_consistent_after_change(d, self@, idx as int);
        }
    }

    /// Recover the mergeable side tables, which snapshots do not carry:
    /// every deleted register of a map container becomes a tombstone of its
    /// key (the later stamp wins over a tombstone already there), then
    /// every mergeable container that has a state is registered on its
    /// parent as `register_mergeable_children` does, against the seeded
    /// tombstones.
    pub fn repopulate_mergeable_child_side_tables(&mut self, oplog: &OpLog)
        requires
            old(self).wf(),
            oplog.wf(),
        ensures
            final(self).wf(),
            final(self)@.arena == old(self)@.arena,
            final(self)@.cache == old(self)@.cache,
            side_tables_consistent(final(self)@),
            exists|cids: Seq<ContainerIdView>, ds: Seq<(ContainerIdx, Seq<char>, ContainerIdView)>|
                (forall|c: ContainerIdView| #[trigger] cids.contains(c) <==> mergeable_with_state(old(self)@, c))
                    && decisions_ok(seeded_doc(old(self)@), *oplog, cids, ds)
                    && final(self)@.store == apply_decisions(seeded_doc(old(self)@).store, old(self)@.arena, ds),
    {
        let ghost d = self@;
        let ghost sd = seeded_doc(d);
        let n = self.store.len();
        let mut i: usize = 0;
        while i < n
            invariant
                self.wf(),
                self@.arena == d.arena,
                self@.cache == d.cache,
                n == d.store.len(),
                self@.store.len() == n,
                i <= n,
                forall|j: int| 0 <= j < i ==> #[trigger] self@.store[j] == seeded_state(d.arena.ids[j], d.store[j]),
                forall|j: int| i <= j < n ==> #[trigger] self@.store[j] == d.store[j],
            decreases n - i,
        {
            let ghost before = self@.store;
            self.seed_tombstones_at(i as ContainerIdx);
            assert forall|j: int| 0 <= j < i + 1 implies #[trigger] self@.store[j] == seeded_state(d.arena.ids[j], d.store[j]) by {
                if j < i {
                    assert(self@.store[j] == before[j]);
                }
            }
            assert forall|j: int| i + 1 <= j < n implies #[trigger] self@.store[j] == d.store[j] by {
                assert(self@.store[j] == before[j]);
            }
            i = i + 1;
        }
        assert(self@.store =~= sd.store);
        assert(self@ == sd);
        assert(side_tables_consistent(sd)) by {
            assert forall|i: int, c: ContainerIdView|
                0 <= i < sd.store.len() && map_at(sd.store, i) is Some && (#[trigger] map_at(sd.store, i)->0.children.contains_key(c))
                    && c.is_mergeable() implies 0 <= i < sd.arena.ids.len() && crate::lww::in_group(c, sd.arena.ids[i], map_at(sd.store, i)->0.children[c]) by {
                assert(map_at(d.store, i)->0.children == map_at(sd.store, i)->0.children);
            }
        }
        let mut mergeable: Vec<ContainerID> = Vec::new();
        let mut i: usize = 0;
        while i < n
            invariant
                self.wf(),
                self@ == sd,
                n == sd.store.len(),
                i <= n,
                forall|c: ContainerIdView| #[trigger] ids_view(mergeable@).contains(c) <==> (c.is_mergeable() && exists|j: int|
                    0 <= j < i && sd.store[j] is Some && sd.arena.ids[j] == c),
            decreases n - i,
        {
            let ghost before = mergeable@;
            if self.store.get(i as ContainerIdx).is_some() {
                let id = self.arena.idx_to_id(i as ContainerIdx).unwrap();
                if id.is_mergeable() {
                    mergeable.push(id.clone_id());
                    proof {
                        crate::mergeable::lemma_ids_view_push(before, mergeable@[before.len() as int]);
                    }
                }
            }
            assert forall|c: ContainerIdView| #[trigger] ids_view(mergeable@).contains(c) <==> (c.is_mergeable() && exists|j: int|
                0 <= j < i + 1 && sd.store[j] is Some && sd.arena.ids[j] == c) by {
                if c.is_mergeable() && exists|j: int| 0 <= j < i + 1 && sd.store[j] is Some && sd.arena.ids[j] == c {
                    let j = choose|j: int| 0 <= j < i + 1 && sd.store[j] is Some && sd.arena.ids[j] == c;
                    if j < i {
                        assert(ids_view(before).contains(c));
                    }
                }
                if ids_view(before).contains(c) {
                    let j = choose|j: int| 0 <= j < i && sd.store[j] is Some && sd.arena.ids[j] == c;
                }
            }
            i = i + 1;
        }
        let ghost cids = ids_view(mergeable@);
        proof {
            assert forall|c: ContainerIdView| #[trigger] cids.contains(c) <==> mergeable_with_state(d, c) by {
                if exists|j: int| 0 <= j < n && sd.store[j] is Some && sd.arena.ids[j] == c {
                    let j = choose|j: int| 0 <= j < n && sd.store[j] is Some && sd.arena.ids[j] == c;
                    assert(d.store[j] is Some);
                }
                if exists|j: int| 0 <= j < d.store.len() && d.store[j] is Some && d.arena.ids[j] == c {
                    let j = choose|j: int| 0 <= j < d.store.len() && d.store[j] is Some && d.arena.ids[j] == c;
                    assert(sd.store[j] is Some);
                }
            }
        }
        self.register_mergeable_children(oplog, mergeable);
    }
}

} // verus!

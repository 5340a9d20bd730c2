//! Resolution between competing mergeable children of one key, and the
//! registration of the winners on their parent maps.

use vstd::prelude::*;
use crate::child_table::{mergeable_under, without_mergeable_under};
use crate::doc_state::{state_at, ArenaView, ContainerState, ContainerStateView, DocState, DocStateView, OpLog, OtherState};
use crate::map_state::{ids_view, MapState, MapStateView};
use crate::mergeable::{arena_index, map_at, op_extremum};
use crate::types::{idlp_le, idlp_lt, ContainerID, ContainerIdView, ContainerIdx, ContainerType, IdLp};

verus! {

/// `c` is the mergeable child of `p` under key `k`.
pub open spec fn in_group(c: ContainerIdView, p: ContainerIdView, k: Seq<char>) -> bool {
    &&& c is Mergeable
    &&& *c->Mergeable_parent == p
    &&& c->Mergeable_key == k
}

/// Some identifier among `cids` is the mergeable child of `p` under `k`.
pub open spec fn has_group(cids: Seq<ContainerIdView>, p: ContainerIdView, k: Seq<char>) -> bool {
    exists|i: int| 0 <= i < cids.len() && in_group(#[trigger] cids[i], p, k)
}

/// The map state of the registered container `p`.
pub open spec fn table_of(d: DocStateView, p: ContainerIdView) -> Option<MapStateView> {
    if d.arena.contains(p) {
        map_at(d.store, arena_index(d.arena, p))
    } else {
        None
    }
}

/// The competitors for key `k` of `p`: the mergeable children of `p` under
/// `k` among `cids`, and those already registered under `k` in the map
/// state of `p`.
pub open spec fn candidates(d: DocStateView, cids: Seq<ContainerIdView>, p: ContainerIdView, k: Seq<char>) -> Set<ContainerIdView> {
    Set::new(
        |c: ContainerIdView|
            (cids.contains(c) && in_group(c, p, k)) || (table_of(d, p) matches Some(m)
                && mergeable_under(m.children, k).contains(c)),
    )
}

/// The tombstone of key `k` in the map state of `p`.
pub open spec fn tombstone_of(d: DocStateView, p: ContainerIdView, k: Seq<char>) -> Option<IdLp> {
    match table_of(d, p) {
        Some(m) => if m.tombstones.contains_key(k) {
            Some(m.tombstones[k])
        } else {
            None
        },
        None => None,
    }
}

/// `c` has operations, and its last one is later than the tombstone `t`.
pub open spec fn eligible(a: ArenaView, log: OpLog, c: ContainerIdView, t: Option<IdLp>) -> bool {
    &&& op_extremum(a, log, c, false) is Some
    &&& op_extremum(a, log, c, true) is Some
    &&& (t matches Some(t) ==> idlp_lt(t, op_extremum(a, log, c, true)->0))
}

/// `w` wins key `k` of `p`: it is an eligible competitor whose first
/// operation is not earlier than that of any eligible competitor.
pub open spec fn is_winner(d: DocStateView, log: OpLog, cids: Seq<ContainerIdView>, p: ContainerIdView, k: Seq<char>, w: ContainerIdView) -> bool {
    let t = tombstone_of(d, p, k);
    &&& candidates(d, cids, p, k).contains(w)
    &&& eligible(d.arena, log, w, t)
    &&& forall|c: ContainerIdView| #[trigger] candidates(d, cids, p, k).contains(c) && eligible(d.arena, log, c, t) ==> idlp_le(
        op_extremum(d.arena, log, c, false)->0,
        op_extremum(d.arena, log, w, false)->0,
    )
}

/// Key `k` of `p` occurs among `cids` and has an eligible competitor.
pub open spec fn decided(d: DocStateView, log: OpLog, cids: Seq<ContainerIdView>, p: ContainerIdView, k: Seq<char>) -> bool {
    &&& has_group(cids, p, k)
    &&& exists|c: ContainerIdView| #[trigger] candidates(d, cids, p, k).contains(c) && eligible(d.arena, log, c, tombstone_of(d, p, k))
}

/// `ds` lists, once each, the decided keys with a winner: the index of the
/// parent, the key, the winner.
pub open spec fn decisions_ok(d: DocStateView, log: OpLog, cids: Seq<ContainerIdView>, ds: Seq<(ContainerIdx, Seq<char>, ContainerIdView)>) -> bool {
    &&& forall|j: int| 0 <= j < ds.len() ==> {
        &&& (#[trigger] ds[j]).0 < d.arena.len()
        &&& decided(d, log, cids, d.arena.ids[ds[j].0 as int], ds[j].1)
        &&& is_winner(d, log, cids, d.arena.ids[ds[j].0 as int], ds[j].1, ds[j].2)
    }
    &&& forall|p: ContainerIdView, k: Seq<char>| #[trigger] decided(d, log, cids, p, k) ==> exists|j: int|
        0 <= j < ds.len() && d.arena.ids[ds[j].0 as int] == p && ds[j].1 == k
    &&& forall|j1: int, j2: int| 0 <= j1 < j2 < ds.len() ==> !((#[trigger] ds[j1]).0 == (#[trigger] ds[j2]).0 && ds[j1].1 == ds[j2].1)
}

/// `after` is what registering `cids` against `log` may leave of `before`:
/// the arena and the cache stay, and the store takes the decisions of one
/// admissible list.
pub open spec fn registered(before: DocStateView, log: OpLog, cids: Seq<ContainerIdView>, after: DocStateView) -> bool {
    &&& after.arena == before.arena
    &&& after.cache == before.cache
    &&& side_tables_consistent(after)
    &&& exists|ds: Seq<(ContainerIdx, Seq<char>, ContainerIdView)>|
        decisions_ok(before, log, cids, ds) && after.store == apply_decisions(before.store, before.arena, ds)
}

/// The state a container gets when it is first needed.
pub open spec fn default_state(id: ContainerIdView, idx: ContainerIdx) -> ContainerStateView {
    if id.kind() == ContainerType::MapContainer {
        ContainerStateView::Mapping(
            MapStateView {
                idx,
                map: Map::empty(),
                children: Map::empty(),
                tombstones: Map::empty(),
            },
        )
    } else {
        ContainerStateView::Other { kind: id.kind(), children: Seq::empty() }
    }
}

/// The store after giving `idx` the state `s`.
pub open spec fn store_put(store: Seq<Option<ContainerStateView>>, idx: ContainerIdx, s: ContainerStateView) -> Seq<
    Option<ContainerStateView>,
> {
    Seq::new(
        if idx < store.len() {
            store.len()
        } else {
            idx as nat + 1
        },
        |i: int|
            if i == idx {
                Some(s)
            } else {
                state_at(store, i)
            },
    )
}

/// The store after registering winner `w` under key `k` of the container
/// at `pi`: the container gets its default state if it had none, and a
/// map state keeps `w` as the only mergeable child under `k`.
pub open spec fn apply_decision(store: Seq<Option<ContainerStateView>>, a: ArenaView, dec: (ContainerIdx, Seq<char>, ContainerIdView)) -> Seq<
    Option<ContainerStateView>,
> {
    let s = match state_at(store, dec.0 as int) {
        Some(s) => s,
        None => default_state(a.ids[dec.0 as int], dec.0),
    };
    let s2 = match s {
        ContainerStateView::Mapping(m) => ContainerStateView::Mapping(
            MapStateView { children: without_mergeable_under(m.children, dec.1).insert(dec.2, dec.1), ..m },
        ),
        other => other,
    };
    store_put(store, dec.0, s2)
}

/// The store after the decisions, in order.
pub open spec fn apply_decisions(store: Seq<Option<ContainerStateView>>, a: ArenaView, ds: Seq<(ContainerIdx, Seq<char>, ContainerIdView)>) -> Seq<
    Option<ContainerStateView>,
>
    decreases ds.len(),
{
    if ds.len() == 0 {
        store
    } else {
        apply_decision(apply_decisions(store, a, ds.drop_last()), a, ds.last())
    }
}

/// Every mergeable child registered in the map state of a container hangs
/// under its own key and names that container as its parent.
pub open spec fn side_tables_consistent(d: DocStateView) -> bool {
    forall|i: int, c: ContainerIdView|
        0 <= i < d.store.len() && map_at(d.store, i) is Some && (#[trigger] map_at(d.store, i)->0.children.contains_key(c))
            && c.is_mergeable() ==> 0 <= i < d.arena.ids.len() && in_group(c, d.arena.ids[i], map_at(d.store, i)->0.children[c])
}

/// Every mergeable child registered in the map state `s` of container `id`
/// hangs under its own key of `id`.
pub open spec fn owns_its_children(id: ContainerIdView, s: ContainerStateView) -> bool {
    s matches ContainerStateView::Mapping(m) ==> forall|c: ContainerIdView|
        #[trigger] m.children.contains_key(c) && c.is_mergeable() ==> in_group(c, id, m.children[c])
}

/// Consistency survives a change of one slot whose new state owns its
/// children, or keeps only mergeable children that the old one had under
/// the same keys.
pub proof fn lemma_consistent_after_change(d0: DocStateView, d1: DocStateView, idx: int)
    requires
        side_tables_consistent(d0),
        d1.arena == d0.arena,
        d0.store.len() <= d0.arena.ids.len(),
        d1.store.len() <= d0.arena.ids.len(),
        forall|i: int| i != idx ==> #[trigger] state_at(d1.store, i) == state_at(d0.store, i),
        (state_at(d1.store, idx) matches Some(s) && owns_its_children(d0.arena.ids[idx], s)) || (forall|c: ContainerIdView|
            #[trigger] map_at(d1.store, idx)->0.children.contains_key(c) && map_at(d1.store, idx) is Some && c.is_mergeable()
                ==> map_at(d0.store, idx) is Some && map_at(d0.store, idx)->0.children.contains_key(c)
                && map_at(d0.store, idx)->0.children[c] == map_at(d1.store, idx)->0.children[c]),
    ensures
        side_tables_consistent(d1),
{
    assert forall|i: int, c: ContainerIdView|
        0 <= i < d1.store.len() && map_at(d1.store, i) is Some && (#[trigger] map_at(d1.store, i)->0.children.contains_key(c))
            && c.is_mergeable() implies 0 <= i < d1.arena.ids.len() && in_group(c, d1.arena.ids[i], map_at(d1.store, i)->0.children[c]) by {
        if i != idx {
            assert(map_at(d1.store, i) == map_at(d0.store, i));
        } else if map_at(d0.store, idx) is Some && map_at(d0.store, idx)->0.children.contains_key(c)
            && map_at(d0.store, idx)->0.children[c] == map_at(d1.store, idx)->0.children[c] {
            assert(0 <= idx < d0.store.len());
        }
    }
}

/// The state that container `id`, at index `idx`, gets when it is first
/// needed: an empty map state for a map, an empty state of its kind
/// otherwise.
pub fn default_state_for(id: &ContainerID, idx: ContainerIdx) -> (r: ContainerState)
    ensures
        r@ == default_state(id@, idx),
        r.wf(),
{
    let kind = id.container_type();
    match kind {
        ContainerType::MapContainer => {
            let m = MapState::new(idx);
            let r = ContainerState::Mapping(m);
            assert(r@ == default_state(id@, idx)) by {
                assert(m@.map =~= Map::empty());
            }
            r
        },
        _ => {
            let children: Vec<ContainerID> = Vec::new();
            assert(ids_view(children@) =~= Seq::<ContainerIdView>::empty());
            ContainerState::Other(OtherState { kind, children })
        },
    }
}

/// Distinct `(parent, key)` pairs of the mergeable identifiers among `cids`.
fn group_keys(cids: &Vec<ContainerID>) -> (r: Vec<(ContainerID, String)>)
    ensures
        forall|g: int| 0 <= g < r@.len() ==> has_group(ids_view(cids@), (#[trigger] r@[g]).0@, r@[g].1@),
        forall|p: ContainerIdView, k: Seq<char>| #[trigger] has_group(ids_view(cids@), p, k) ==> exists|g: int|
            0 <= g < r@.len() && r@[g].0@ == p && r@[g].1@ == k,
        forall|g1: int, g2: int| 0 <= g1 < g2 < r@.len() ==> !((#[trigger] r@[g1]).0@ == (#[trigger] r@[g2]).0@ && r@[g1].1@ == r@[g2].1@),
{
    let mut r: Vec<(ContainerID, String)> = Vec::new();
    let mut i: usize = 0;
    while i < cids.len()
        invariant
            i <= cids@.len(),
            forall|g: int| 0 <= g < r@.len() ==> has_group(ids_view(cids@), (#[trigger] r@[g]).0@, r@[g].1@),
            forall|j: int| 0 <= j < i && (#[trigger] cids@[j])@ is Mergeable ==> exists|g: int|
                0 <= g < r@.len() && r@[g].0@ == *cids@[j]@->Mergeable_parent && r@[g].1@ == cids@[j]@->Mergeable_key,
            forall|g1: int, g2: int| 0 <= g1 < g2 < r@.len() ==> !((#[trigger] r@[g1]).0@ == (#[trigger] r@[g2]).0@ && r@[g1].1@ == r@[g2].1@),
        decreases cids@.len() - i,
    {
        match cids[i].parse_mergeable() {
            Some((p, k, _kind)) => {
                let mut found = false;
                let mut g: usize = 0;
                while g < r.len()
                    invariant
                        g <= r@.len(),
                        !found ==> forall|h: int| 0 <= h < g ==> !((#[trigger] r@[h]).0@ == p@ && r@[h].1@ == k@),
                        found ==> exists|h: int| 0 <= h < r@.len() && r@[h].0@ == p@ && r@[h].1@ == k@,
                    decreases r@.len() - g,
                {
                    if !found && r[g].0.same_as(&p) && r[g].1 == k {
                        found = true;
                    }
                    g = g + 1;
                }
                let ghost before = r@;
                if !found {
                    r.push((p, k));
                    assert forall|g1: int, g2: int| 0 <= g1 < g2 < r@.len() implies !((#[trigger] r@[g1]).0@ == (#[trigger] r@[g2]).0@ && r@[g1].1@ == r@[g2].1@) by {
                        if g2 == r@.len() - 1 {
                            assert(r@[g1] == before[g1]);
                        } else {
                            assert(r@[g1] == before[g1] && r@[g2] == before[g2]);
                        }
                    }
                    assert forall|g: int| 0 <= g < r@.len() implies has_group(ids_view(cids@), (#[trigger] r@[g]).0@, r@[g].1@) by {
                        if g < before.len() {
                            assert(r@[g] == before[g]);
                        } else {
                            assert(in_group(ids_view(cids@)[i as int], r@[g].0@, r@[g].1@));
                        }
                    }
                }
                assert forall|j: int| 0 <= j < i + 1 && (#[trigger] cids@[j])@ is Mergeable implies exists|g: int|
                    0 <= g < r@.len() && r@[g].0@ == *cids@[j]@->Mergeable_parent && r@[g].1@ == cids@[j]@->Mergeable_key by {
                    if j < i {
                        let g = choose|g: int| 0 <= g < before.len() && before[g].0@ == *cids@[j]@->Mergeable_parent && before[g].1@ == cids@[j]@->Mergeable_key;
                        assert(r@[g] == before[g]);
                    } else if !found {
                        assert(r@[before.len() as int].0@ == *cids@[j]@->Mergeable_parent);
                    }
                }
            },
            None => {},
        }
        i = i + 1;
    }
    assert forall|p: ContainerIdView, k: Seq<char>| #[trigger] has_group(ids_view(cids@), p, k) implies exists|g: int|
        0 <= g < r@.len() && r@[g].0@ == p && r@[g].1@ == k by {
        let j = choose|j: int| 0 <= j < cids@.len() && in_group(#[trigger] ids_view(cids@)[j], p, k);
        assert(cids@[j]@ == ids_view(cids@)[j]);
    }
    r
}

impl DocState {
    /// The tombstone of key `k` in the map state of `p`.
    fn tombstone_lookup(&self, p: &ContainerID, k: &String) -> (r: Option<IdLp>)
        requires
            self.wf(),
        ensures
            r == tombstone_of(self@, p@, k@),
    {
        match self.arena.id_to_idx(p) {
            Some(pi) => {
                proof {
                    lemma_arena_index(self@.arena, p@, pi as int);
                }
                match self.store.get(pi) {
                    Some(s) => match s {
                        ContainerState::Mapping(m) => {
                            assert(s@ == ContainerStateView::Mapping(m@));
                            m.mergeable_tombstone(k.as_str())
                        },
                        _ => None,
                    },
                    None => None,
                }
            },
            None => None,
        }
    }

    /// The competitors for key `k` of `p`.
    fn candidate_list(&self, cids: &Vec<ContainerID>, p: &ContainerID, k: &String) -> (r: Vec<ContainerID>)
        requires
            self.wf(),
        ensures
            ids_view(r@).to_set() == candidates(self@, ids_view(cids@), p@, k@),
    {
        let mut r: Vec<ContainerID> = Vec::new();
        let mut i: usize = 0;
        while i < cids.len()
            invariant
                i <= cids@.len(),
                forall|x: ContainerIdView| #[trigger] ids_view(r@).contains(x) <==> exists|j: int| 0 <= j < i && cids@[j]@ == x && in_group(x, p@, k@),
            decreases cids@.len() - i,
        {
            let ghost before = r@;
            match cids[i].parse_mergeable() {
                Some((q, kk, _kind)) => {
                    if q.same_as(p) && kk == *k {
                        r.push(cids[i].clone_id());
                        proof {
                            crate::mergeable::lemma_ids_view_push(before, cids@[i as int]);
                        }
                    }
                },
                None => {},
            }
            assert forall|x: ContainerIdView| #[trigger] ids_view(r@).contains(x) <==> exists|j: int| 0 <= j < i + 1 && cids@[j]@ == x && in_group(x, p@, k@) by {
                if exists|j: int| 0 <= j < i + 1 && cids@[j]@ == x && in_group(x, p@, k@) {
                    let j = choose|j: int| 0 <= j < i + 1 && cids@[j]@ == x && in_group(x, p@, k@);
                    if j < i {
                        assert(ids_view(before).contains(x));
                    }
                }
                if ids_view(before).contains(x) {
                    let j = choose|j: int| 0 <= j < i && cids@[j]@ == x && in_group(x, p@, k@);
                }
            }
            i = i + 1;
        }
        let ghost from_cids = r@;
        match self.arena.id_to_idx(p) {
            Some(pi) => {
                proof {
                    lemma_arena_index(self@.arena, p@, pi as int);
                }
                match self.store.get(pi) {
                    Some(s) => match s {
                        ContainerState::Mapping(m) => {
                            assert(s@ == ContainerStateView::Mapping(m@));
                            let existing = m.mergeable_child_ids_for_key(k.as_str());
                            let mut j: usize = 0;
                            while j < existing.len()
                                invariant
                                    j <= existing@.len(),
                                    forall|x: ContainerIdView| #[trigger] ids_view(r@).contains(x) <==> (ids_view(from_cids).contains(x) || exists|e: int| 0 <= e < j && existing@[e]@ == x),
                                decreases existing@.len() - j,
                            {
                                let ghost before = r@;
                                r.push(existing[j].clone_id());
                                proof {
                                    crate::mergeable::lemma_ids_view_push(before, existing@[j as int]);
                                }
                                assert forall|x: ContainerIdView| #[trigger] ids_view(r@).contains(x) <==> (ids_view(from_cids).contains(x) || exists|e: int| 0 <= e < j + 1 && existing@[e]@ == x) by {
                                    if exists|e: int| 0 <= e < j + 1 && existing@[e]@ == x {
                                        let e = choose|e: int| 0 <= e < j + 1 && existing@[e]@ == x;
                                        if e < j {
                                            assert(ids_view(before).contains(x));
                                        }
                                    }
                                }
                                j = j + 1;
                            }
                            proof {
                                assert(table_of(self@, p@) == Some(m@));
                                assert(ids_view(r@).to_set() =~= candidates(self@, ids_view(cids@), p@, k@)) by {
                                    assert forall|x: ContainerIdView| ids_view(r@).to_set().contains(x) <==> candidates(self@, ids_view(cids@), p@, k@).contains(x) by {
                                        lemma_cids_contains(cids@, x);
                                        if mergeable_under(m@.children, k@).contains(x) {
                                            let e = choose|e: int| 0 <= e < existing@.len() && existing@[e]@ == x;
                                        }
                                        if exists|e: int| 0 <= e < existing@.len() && existing@[e]@ == x {
                                            let e = choose|e: int| 0 <= e < existing@.len() && existing@[e]@ == x;
                                            assert(mergeable_under(m@.children, k@).contains(existing@[e]@));
                                        }
                                    }
                                }
                            }
                            return r;
                        },
                        _ => {},
                    },
                    None => {},
                }
            },
            None => {},
        }
        proof {
            assert(table_of(self@, p@) is None);
            assert forall|x: ContainerIdView| ids_view(r@).to_set().contains(x) <==> candidates(self@, ids_view(cids@), p@, k@).contains(x) by {
                lemma_cids_contains(cids@, x);
            }
            assert(ids_view(r@).to_set() =~= candidates(self@, ids_view(cids@), p@, k@));
        }
        r
    }

    /// The eligible competitor of `list` with the latest first operation:
    /// the later one in `list` among equals.
    fn pick_winner(&self, oplog: &OpLog, list: &Vec<ContainerID>, t: Option<IdLp>) -> (r: Option<ContainerID>)
        requires
            self.wf(),
            oplog.wf(),
        ensures
            match r {
                None => forall|c: ContainerIdView| #[trigger] ids_view(list@).contains(c) ==> !eligible(self@.arena, *oplog, c, t),
                Some(w) => {
                    &&& ids_view(list@).contains(w@)
                    &&& eligible(self@.arena, *oplog, w@, t)
                    &&& forall|c: ContainerIdView| #[trigger] ids_view(list@).contains(c) && eligible(self@.arena, *oplog, c, t) ==> idlp_le(
                        op_extremum(self@.arena, *oplog, c, false)->0,
                        op_extremum(self@.arena, *oplog, w@, false)->0,
                    )
                },
            },
    {
        let ghost a = self@.arena;
        let ghost log = *oplog;
        let mut best: Option<(usize, IdLp)> = None;
        let mut j: usize = 0;
        while j < list.len()
            invariant
                self.wf(),
                oplog.wf(),
                a == self@.arena,
                log == *oplog,
                j <= list@.len(),
                match best {
                    None => forall|e: int| 0 <= e < j ==> !eligible(a, log, (#[trigger] list@[e])@, t),
                    Some((b, f)) => {
                        &&& b < j
                        &&& eligible(a, log, list@[b as int]@, t)
                        &&& op_extremum(a, log, list@[b as int]@, false) == Some(f)
                        &&& forall|e: int| 0 <= e < j && eligible(a, log, (#[trigger] list@[e])@, t) ==> idlp_le(
                            op_extremum(a, log, list@[e]@, false)->0,
                            f,
                        )
                    },
                },
            decreases list@.len() - j,
        {
            let first = self.mergeable_first_op_idlp(oplog, &list[j]);
            let max = self.mergeable_max_op_idlp(oplog, &list[j]);
            match (first, max) {
                (Some(f), Some(m)) => {
                    let reachable = match t {
                        Some(tt) => tt.lt(&m),
                        None => true,
                    };
                    if reachable {
                        let replace = match best {
                            Some((_, bf)) => bf.le(&f),
                            None => true,
                        };
                        if replace {
                            best = Some((j, f));
                        }
                    }
                },
                _ => {},
            }
            j = j + 1;
        }
        match best {
            Some((b, _)) => {
                let w = list[b].clone_id();
                proof {
                    assert(ids_view(list@)[b as int] == w@);
                    assert forall|c: ContainerIdView| #[trigger] ids_view(list@).contains(c) && eligible(a, log, c, t) implies idlp_le(
                        op_extremum(a, log, c, false)->0,
                        op_extremum(a, log, w@, false)->0,
                    ) by {
                        let e = choose|e: int| 0 <= e < ids_view(list@).len() && ids_view(list@)[e] == c;
                        assert(list@[e]@ == c);
                    }
                }
                Some(w)
            },
            None => {
                proof {
                    assert forall|c: ContainerIdView| #[trigger] ids_view(list@).contains(c) implies !eligible(a, log, c, t) by {
                        let e = choose|e: int| 0 <= e < ids_view(list@).len() && ids_view(list@)[e] == c;
                        assert(list@[e]@ == c);
                    }
                }
                None
            },
        }
    }
}

/// The views of `cids` hold `x` when some identifier of `cids` has view `x`.
pub proof fn lemma_cids_contains(cids: Seq<ContainerID>, x: ContainerIdView)
    ensures
        ids_view(cids).contains(x) <==> exists|j: int| 0 <= j < cids.len() && cids[j]@ == x,
{
    if ids_view(cids).contains(x) {
        let j = choose|j: int| 0 <= j < ids_view(cids).len() && ids_view(cids)[j] == x;
        assert(cids[j]@ == x);
    }
    if exists|j: int| 0 <= j < cids.len() && cids[j]@ == x {
        let j = choose|j: int| 0 <= j < cids.len() && cids[j]@ == x;
        assert(ids_view(cids)[j] == x);
    }
}

/// The index that `id_to_idx` finds is the arena index.
pub proof fn lemma_arena_index(a: ArenaView, p: ContainerIdView, pi: int)
    requires
        a.wf(),
        0 <= pi < a.ids.len(),
        a.ids[pi] == p,
    ensures
        a.contains(p),
        arena_index(a, p) == pi,
{
    assert(a.contains(p));
    let k = arena_index(a, p);
    if k != pi {
        assert(a.ids[k] == a.ids[pi]);
    }
}

impl DocState {
    /// Register `w` as the only mergeable child under `key` of the
    /// container at `pi`, giving that container its default state first if
    /// it has none.
    fn apply_decision_at(&mut self, pi: ContainerIdx, key: String, w: ContainerID)
        requires
            old(self).wf(),
            pi < old(self)@.arena.len(),
            in_group(w@, old(self)@.arena.ids[pi as int], key@),
            side_tables_consistent(old(self)@),
        ensures
            final(self).wf(),
            final(self)@.arena == old(self)@.arena,
            final(self)@.cache == old(self)@.cache,
            final(self)@.store == apply_decision(old(self)@.store, old(self)@.arena, (pi, key@, w@)),
            side_tables_consistent(final(self)@),
    {
        let ghost d = self@;
        let ghost dec = (pi, key@, w@);
        let taken = self.store.take(pi);
        let state = match taken {
            Some(s) => s,
            None => {
                let id = self.arena.idx_to_id(pi).unwrap();
                default_state_for(id, pi)
            },
        };
        let ghost s0 = state@;
        let new_state = match state {
            ContainerState::Mapping(mut m) => {
                m.replace_mergeable_child_for_key(key, w);
                ContainerState::Mapping(m)
            },
            other => other,
        };
        self.store.put(pi, new_state);
        proof {
            let target = apply_decision(d.store, d.arena, dec);
            assert(self@.store =~= target) by {
                assert forall|i: int| 0 <= i < self@.store.len() implies self@.store[i] == target[i] by {
                    if i != pi {
                        if pi < d.store.len() && 0 <= i < d.store.len() {
                            assert(state_at(d.store.update(pi as int, None), i) == state_at(d.store, i));
                        }
                    }
                }
            }
            assert forall|i: int, c: ContainerIdView|
                0 <= i < self@.store.len() && map_at(self@.store, i) is Some && (#[trigger] map_at(self@.store, i)->0.children.contains_key(c))
                    && c.is_mergeable() implies 0 <= i < self@.arena.ids.len() && in_group(c, self@.arena.ids[i], map_at(self@.store, i)->0.children[c]) by {
                if i != pi {
                    assert(map_at(self@.store, i) == map_at(d.store, i));
                } else {
                    if c != w@ {
                        match state_at(d.store, pi as int) {
                            Some(_) => {
                                assert(map_at(d.store, i)->0.children.contains_key(c));
                            },
                            None => {},
                        }
                    }
                }
            }
        }
    }

    /// Register the mergeable identifiers among `cids` on their parent
    /// maps. For every key that some identifier of `cids` claims, the
    /// competitors are the claimants and the children already registered
    /// under that key; those without operations, or whose last operation is
    /// not later than the key's tombstone, drop out; of the rest, the one
    /// whose first operation is latest wins and becomes the only mergeable
    /// child under that key. A key without a remaining competitor is left
    /// as it is. Identifiers that are not mergeable are ignored.
    #[verifier::spinoff_prover]
    #[verifier::rlimit(80)]
    pub fn register_mergeable_children(&mut self, oplog: &OpLog, cids: Vec<ContainerID>)
        requires
            old(self).wf(),
            oplog.wf(),
        ensures
            final(self).wf(),
            registered(old(self)@, *oplog, ids_view(cids@), final(self)@),
    {
        let ghost d = self@;
        let ghost log = *oplog;
        let keys = group_keys(&cids);
        let mut decisions: Vec<(ContainerIdx, String, ContainerID)> = Vec::new();
        let ghost mut ds: Seq<(ContainerIdx, Seq<char>, ContainerIdView)> = Seq::empty();
        let mut g: usize = 0;
        while g < keys.len()
            invariant
                self@ == d,
                self.wf(),
                oplog.wf(),
                log == *oplog,
                side_tables_consistent(d),
                g <= keys@.len(),
                forall|h: int| 0 <= h < keys@.len() ==> has_group(ids_view(cids@), (#[trigger] keys@[h]).0@, keys@[h].1@),
                forall|g1: int, g2: int| 0 <= g1 < g2 < keys@.len() ==> !((#[trigger] keys@[g1]).0@ == (#[trigger] keys@[g2]).0@ && keys@[g1].1@ == keys@[g2].1@),
                decisions@.len() == ds.len(),
                forall|j: int| 0 <= j < ds.len() ==> (#[trigger] decisions@[j]).0 == ds[j].0 && decisions@[j].1@ == ds[j].1 && decisions@[j].2@ == ds[j].2,
                forall|j: int| 0 <= j < ds.len() ==> {
                    &&& (#[trigger] ds[j]).0 < d.arena.len()
                    &&& decided(d, log, ids_view(cids@), d.arena.ids[ds[j].0 as int], ds[j].1)
                    &&& is_winner(d, log, ids_view(cids@), d.arena.ids[ds[j].0 as int], ds[j].1, ds[j].2)
                    &&& in_group(ds[j].2, d.arena.ids[ds[j].0 as int], ds[j].1)
                    &&& exists|h: int| 0 <= h < g && keys@[h].0@ == d.arena.ids[ds[j].0 as int] && keys@[h].1@ == ds[j].1
                },
                forall|h: int| 0 <= h < g && #[trigger] decided(d, log, ids_view(cids@), keys@[h].0@, keys@[h].1@) ==> exists|j: int|
                    0 <= j < ds.len() && d.arena.ids[ds[j].0 as int] == keys@[h].0@ && ds[j].1 == keys@[h].1@,
                forall|j1: int, j2: int| 0 <= j1 < j2 < ds.len() ==> !((#[trigger] ds[j1]).0 == (#[trigger] ds[j2]).0 && ds[j1].1 == ds[j2].1),
            decreases keys@.len() - g,
        {
            let p = &keys[g].0;
            let k = &keys[g].1;
            let list = self.candidate_list(&cids, p, k);
            let t = self.tombstone_lookup(p, k);
            let winner = self.pick_winner(oplog, &list, t);
            let ghost pv = p@;
            let ghost kv = k@;
            let ghost cand = candidates(d, ids_view(cids@), pv, kv);
            proof {
                assert forall|c: ContainerIdView| ids_view(list@).contains(c) <==> cand.contains(c) by {
                    assert(ids_view(list@).to_set().contains(c) == ids_view(list@).contains(c));
                }
            }
            match winner {
                Some(w) => {
                    proof {
                        let wv = w@;
                        assert(cand.contains(wv));
                        assert(is_winner(d, log, ids_view(cids@), pv, kv, wv));
                        assert(decided(d, log, ids_view(cids@), pv, kv));
                        // the winner's parent is `p`, and `p` is registered
                        assert(in_group(wv, pv, kv)) by {
                            if !(ids_view(cids@).contains(wv) && in_group(wv, pv, kv)) {
                                let m = table_of(d, pv)->0;
                                let pi0 = arena_index(d.arena, pv);
                                assert(m.children.contains_key(wv));
                                assert(map_at(d.store, pi0)->0.children.contains_key(wv));
                            }
                        }
                        assert(d.arena.contains(wv));
                        let iw = arena_index(d.arena, wv);
                        assert(d.arena.ids[iw].is_mergeable());
                        assert(d.arena.contains(pv)) by {
                            let pp = d.arena.parents[iw]->0 as int;
                            assert(d.arena.ids[pp] == pv);
                        }
                    }
                    let pi = self.arena.id_to_idx(p).unwrap();
                    let ghost old_ds = ds;
                    let ghost old_decisions = decisions@;
                    decisions.push((pi, k.clone(), w));
                    proof {
                        ds = ds.push((pi, kv, decisions@[decisions@.len() - 1].2@));
                        assert forall|j: int| 0 <= j < ds.len() implies (#[trigger] decisions@[j]).0 == ds[j].0 && decisions@[j].1@ == ds[j].1 && decisions@[j].2@ == ds[j].2 by {
                            if j < old_ds.len() {
                                assert(decisions@[j] == old_decisions[j]);
                            }
                        }
                        assert forall|j: int| 0 <= j < ds.len() implies {
                            &&& (#[trigger] ds[j]).0 < d.arena.len()
                            &&& decided(d, log, ids_view(cids@), d.arena.ids[ds[j].0 as int], ds[j].1)
                            &&& is_winner(d, log, ids_view(cids@), d.arena.ids[ds[j].0 as int], ds[j].1, ds[j].2)
                            &&& in_group(ds[j].2, d.arena.ids[ds[j].0 as int], ds[j].1)
                            &&& exists|h: int| 0 <= h < g + 1 && keys@[h].0@ == d.arena.ids[ds[j].0 as int] && keys@[h].1@ == ds[j].1
                        } by {
                            if j < old_ds.len() {
                                assert(ds[j] == old_ds[j]);
                            } else {
                                assert(keys@[g as int].0@ == d.arena.ids[ds[j].0 as int]);
                            }
                        }
                        assert forall|j1: int, j2: int| 0 <= j1 < j2 < ds.len() implies !((#[trigger] ds[j1]).0 == (#[trigger] ds[j2]).0 && ds[j1].1 == ds[j2].1) by {
                            if j2 == old_ds.len() {
                                assert(ds[j1] == old_ds[j1]);
                                let h = choose|h: int| 0 <= h < g && keys@[h].0@ == d.arena.ids[old_ds[j1].0 as int] && keys@[h].1@ == old_ds[j1].1;
                                if ds[j1].0 == ds[j2].0 && ds[j1].1 == ds[j2].1 {
                                    assert(keys@[h].0@ == keys@[g as int].0@);
                                }
                            } else {
                                assert(ds[j1] == old_ds[j1] && ds[j2] == old_ds[j2]);
                            }
                        }
                        assert forall|h: int| 0 <= h < g + 1 && #[trigger] decided(d, log, ids_view(cids@), keys@[h].0@, keys@[h].1@) implies exists|j: int|
                            0 <= j < ds.len() && d.arena.ids[ds[j].0 as int] == keys@[h].0@ && ds[j].1 == keys@[h].1@ by {
                            if h < g {
                                let j = choose|j: int| 0 <= j < old_ds.len() && d.arena.ids[old_ds[j].0 as int] == keys@[h].0@ && old_ds[j].1 == keys@[h].1@;
                                assert(ds[j] == old_ds[j]);
                            } else {
                                assert(ds[old_ds.len() as int].1 == keys@[h].1@);
                            }
                        }
                    }
                },
                None => {
                    proof {
                        assert(!decided(d, log, ids_view(cids@), pv, kv)) by {
                            if decided(d, log, ids_view(cids@), pv, kv) {
                                let c = choose|c: ContainerIdView| #[trigger] cand.contains(c) && eligible(d.arena, log, c, tombstone_of(d, pv, kv));
                                assert(ids_view(list@).contains(c));
                            }
                        }
                        assert forall|j: int| 0 <= j < ds.len() implies exists|h: int| 0 <= h < g + 1 && keys@[h].0@ == d.arena.ids[(#[trigger] ds[j]).0 as int] && keys@[h].1@ == ds[j].1 by {
                            let h = choose|h: int| 0 <= h < g && keys@[h].0@ == d.arena.ids[ds[j].0 as int] && keys@[h].1@ == ds[j].1;
                        }
                    }
                },
            }
            g = g + 1;
        }
        proof {
            assert forall|p: ContainerIdView, k: Seq<char>| #[trigger] decided(d, log, ids_view(cids@), p, k) implies exists|j: int|
                0 <= j < ds.len() && d.arena.ids[ds[j].0 as int] == p && ds[j].1 == k by {
                let h = choose|h: int| 0 <= h < keys@.len() && keys@[h].0@ == p && keys@[h].1@ == k;
                assert(decided(d, log, ids_view(cids@), keys@[h].0@, keys@[h].1@));
            }
            assert(decisions_ok(d, log, ids_view(cids@), ds));
        }
        let mut j: usize = 0;
        let mut decisions = decisions;
        let n = decisions.len();
        let ghost all = ds;
        let ghost all_decisions = decisions@;
        assert(all.take(0) =~= Seq::<(ContainerIdx, Seq<char>, ContainerIdView)>::empty());
        while j < n
            invariant
                n == all.len(),
                self.wf(),
                self@.arena == d.arena,
                self@.cache == d.cache,
                side_tables_consistent(self@),
                j <= all.len(),
                all.len() == all_decisions.len(),
                decisions@ == all_decisions.skip(j as int),
                forall|x: int| 0 <= x < all.len() ==> (#[trigger] all_decisions[x]).0 == all[x].0 && all_decisions[x].1@ == all[x].1 && all_decisions[x].2@ == all[x].2,
                forall|x: int| 0 <= x < all.len() ==> (#[trigger] all[x]).0 < d.arena.len() && in_group(all[x].2, d.arena.ids[all[x].0 as int], all[x].1),
                self@.store == apply_decisions(d.store, d.arena, all.take(j as int)),
            decreases all.len() - j,
        {
            let (pi, key, w) = decisions.remove(0);
            proof {
                assert(all_decisions.skip(j as int)[0] == all_decisions[j as int]);
            }
            self.apply_decision_at(pi, key, w);
            proof {
                assert(all.take(j + 1).drop_last() =~= all.take(j as int));
                assert(all.take(j + 1).last() == all[j as int]);
                assert(decisions@ =~= all_decisions.skip(j + 1));
            }
            j = j + 1;
        }
        proof {
            assert(all.take(all.len() as int) =~= all);
        }
    }
}

} // verus!

//! Bookkeeping of mergeable child containers on the document: the stamps
//! of their first and last operations, the resolution between competing
//! children of one key, and the eviction of children that a delete
//! dominates.

use vstd::prelude::*;
use crate::child_table::{lists_mergeable_children, mergeable_under};
use crate::doc_state::{state_at, ArenaView, ContainerState, ContainerStateView, DocState, DocStateView, OpLog};
use crate::map_state::MapStateView;
use crate::types::{idlp_le, idlp_lt, ContainerID, ContainerIdView, ContainerIdx, IdLp};

verus! {

/// The index of a registered identifier.
pub open spec fn arena_index(a: ArenaView, c: ContainerIdView) -> int {
    choose|i: int| 0 <= i < a.ids.len() && a.ids[i] == c
}

/// `x` is the latest stamp among the operations on `c` (the earliest when
/// `latest` is false).
pub open spec fn is_op_extremum(a: ArenaView, log: OpLog, c: ContainerIdView, latest: bool, x: IdLp) -> bool {
    let s = log.op_idlps(arena_index(a, c) as ContainerIdx);
    &&& s.contains(x)
    &&& forall|y: IdLp| #[trigger] s.contains(y) ==> if latest {
        idlp_le(y, x)
    } else {
        idlp_le(x, y)
    }
}

/// The stamp of the first (or the last) operation on the mergeable
/// container `c`; nothing for an identifier that is not mergeable, not
/// registered, or has no operation yet.
pub open spec fn op_extremum(a: ArenaView, log: OpLog, c: ContainerIdView, latest: bool) -> Option<IdLp> {
    if !c.is_mergeable() || !a.contains(c) {
        None
    } else if exists|x: IdLp| is_op_extremum(a, log, c, latest, x) {
        Some(choose|x: IdLp| is_op_extremum(a, log, c, latest, x))
    } else {
        None
    }
}

/// The stamps of the operations on `idx` among the first `ci` changes and
/// the first `oi` operations of change `ci`.
pub open spec fn op_idlps_upto(log: OpLog, idx: ContainerIdx, ci: int, oi: int) -> Set<IdLp> {
    Set::new(
        |x: IdLp|
            exists|i: int, j: int|
                0 <= i < log.changes@.len() && 0 <= j < log.changes@[i].ops@.len() && (i < ci || (i == ci
                    && j < oi)) && (#[trigger] log.changes@[i].ops@[j]).container == idx
                    && crate::doc_state::op_idlp(log.changes@[i], log.changes@[i].ops@[j]) == x,
    )
}

/// Which end of the operation stamps to find.
#[derive(Clone, Copy)]
enum OpIdlpExtremum {
    Min,
    Max,
}

/// The state of `idx` as a map, if it is one.
pub open spec fn map_at(store: Seq<Option<ContainerStateView>>, idx: int) -> Option<MapStateView> {
    match state_at(store, idx) {
        Some(ContainerStateView::Mapping(m)) => Some(m),
        _ => None,
    }
}

/// The mergeable children of `m` that a tombstone of their key dominates:
/// the last operation on the child is not later than the delete, or the
/// child has no operation.
pub open spec fn dominated_children(a: ArenaView, log: OpLog, m: MapStateView) -> Set<ContainerIdView> {
    m.children.dom().filter(
        |c: ContainerIdView|
            c.is_mergeable() && m.tombstones.contains_key(m.children[c]) && match op_extremum(a, log, c, true) {
                Some(x) => idlp_le(x, m.tombstones[m.children[c]]),
                None => true,
            },
    )
}

/// A map state after evicting the children in `evict`.
pub open spec fn without_children(m: MapStateView, evict: Set<ContainerIdView>) -> MapStateView {
    MapStateView { children: m.children.remove_keys(evict), ..m }
}

impl DocState {
    fn op_idlp_extremum_of(&self, oplog: &OpLog, cid: &ContainerID, extremum: OpIdlpExtremum) -> (r:
        Option<IdLp>)
        requires
            self.wf(),
            oplog.wf(),
        ensures
            r == op_extremum(self@.arena, *oplog, cid@, extremum is Max),
    {
        let latest = match extremum {
            OpIdlpExtremum::Max => true,
            OpIdlpExtremum::Min => false,
        };
        if !cid.is_mergeable() {
            return None;
        }
        let target_idx = match self.arena.id_to_idx(cid) {
            Some(i) => i,
            None => {
                return None;
            },
        };
        let ghost a = self@.arena;
        proof {
            assert(a.contains(cid@));
            let k = arena_index(a, cid@);
            assert(k == target_idx) by {
                if k != target_idx {
                    assert(a.ids[k] == a.ids[target_idx as int]);
                }
            }
        }
        let ghost log = *oplog;
        let mut best: Option<IdLp> = None;
        let mut ci: usize = 0;
        while ci < oplog.changes.len()
            invariant
                log == *oplog,
                oplog.wf(),
                latest == (extremum is Max),
                ci <= oplog.changes@.len(),
                match best {
                    None => op_idlps_upto(log, target_idx, ci as int, 0) =~= Set::<IdLp>::empty(),
                    Some(x) => op_idlps_upto(log, target_idx, ci as int, 0).contains(x) && forall|y: IdLp|
                        #[trigger] op_idlps_upto(log, target_idx, ci as int, 0).contains(y) ==> if latest {
                            idlp_le(y, x)
                        } else {
                            idlp_le(x, y)
                        },
                },
            decreases oplog.changes@.len() - ci,
        {
            let change = &oplog.changes[ci];
            let base_counter = change.counter;
            let base_lamport = change.lamport;
            let peer = change.peer;
            let mut oi: usize = 0;
            while oi < change.ops.len()
                invariant
                    log == *oplog,
                    oplog.wf(),
                    latest == (extremum is Max),
                    ci < oplog.changes@.len(),
                    *change == oplog.changes@[ci as int],
                    base_counter == change.counter,
                    base_lamport == change.lamport,
                    peer == change.peer,
                    oi <= change.ops@.len(),
                    match best {
                        None => op_idlps_upto(log, target_idx, ci as int, oi as int) =~= Set::<IdLp>::empty(),
                        Some(x) => op_idlps_upto(log, target_idx, ci as int, oi as int).contains(x) && forall|y: IdLp|
                            #[trigger] op_idlps_upto(log, target_idx, ci as int, oi as int).contains(y) ==> if latest {
                                idlp_le(y, x)
                            } else {
                                idlp_le(x, y)
                            },
                    },
                decreases change.ops@.len() - oi,
            {
                let op = &change.ops[oi];
                let ghost before = op_idlps_upto(log, target_idx, ci as int, oi as int);
                let ghost after = op_idlps_upto(log, target_idx, ci as int, oi + 1);
                if op.container != target_idx {
                    assert(after =~= before) by {
                        assert forall|x: IdLp| after.contains(x) implies before.contains(x) by {
                            let (i, j) = choose|i: int, j: int|
                                0 <= i < log.changes@.len() && 0 <= j < log.changes@[i].ops@.len() && (i < ci || (i == ci
                                    && j < oi + 1)) && (#[trigger] log.changes@[i].ops@[j]).container == target_idx
                                    && crate::doc_state::op_idlp(log.changes@[i], log.changes@[i].ops@[j]) == x;
                            assert(!(i == ci && j == oi));
                        }
                    }
                    proof {
                        if best is None {
                            assert(after =~= Set::<IdLp>::empty());
                        }
                    }
                } else {
                    proof {
                        assert(0 <= change.counter <= op.counter);
                        assert(change.lamport + (op.counter - change.counter) <= u32::MAX);
                    }
                    let lamport = base_lamport + (op.counter - base_counter) as u32;
                    let idlp = IdLp::new(peer, lamport);
                    assert(idlp == crate::doc_state::op_idlp(log.changes@[ci as int], log.changes@[ci as int].ops@[oi as int]));
                    assert(after =~= before.insert(idlp)) by {
                        assert forall|x: IdLp| after.contains(x) implies before.insert(idlp).contains(x) by {
                            let (i, j) = choose|i: int, j: int|
                                0 <= i < log.changes@.len() && 0 <= j < log.changes@[i].ops@.len() && (i < ci || (i == ci
                                    && j < oi + 1)) && (#[trigger] log.changes@[i].ops@[j]).container == target_idx
                                    && crate::doc_state::op_idlp(log.changes@[i], log.changes@[i].ops@[j]) == x;
                            if !(i == ci && j == oi) {
                                assert(before.contains(x));
                            }
                        }
                        assert(after.contains(idlp));
                    }
                    best = Some(match best {
                        Some(cur) => match extremum {
                            OpIdlpExtremum::Min => if cur.le(&idlp) {
                                cur
                            } else {
                                idlp
                            },
                            OpIdlpExtremum::Max => if idlp.le(&cur) {
                                cur
                            } else {
                                idlp
                            },
                        },
                        None => idlp,
                    });
                }
                oi = oi + 1;
            }
            assert(op_idlps_upto(log, target_idx, ci as int, oi as int) =~= op_idlps_upto(log, target_idx, ci + 1, 0)) by {
                let s1 = op_idlps_upto(log, target_idx, ci as int, oi as int);
                let s2 = op_idlps_upto(log, target_idx, ci + 1, 0);
                assert forall|x: IdLp| s2.contains(x) implies s1.contains(x) by {
                    let (i, j) = choose|i: int, j: int|
                        0 <= i < log.changes@.len() && 0 <= j < log.changes@[i].ops@.len() && (i < ci + 1 || (i == ci + 1
                            && j < 0)) && (#[trigger] log.changes@[i].ops@[j]).container == target_idx
                            && crate::doc_state::op_idlp(log.changes@[i], log.changes@[i].ops@[j]) == x;
                    assert(i < ci || (i == ci && j < oi));
                }
            }
            ci = ci + 1;
        }
        let ghost all = log.op_idlps(target_idx);
        assert(op_idlps_upto(log, target_idx, ci as int, 0) =~= all) by {
            let s1 = op_idlps_upto(log, target_idx, ci as int, 0);
            assert forall|x: IdLp| all.contains(x) implies s1.contains(x) by {
                let (i, j) = choose|i: int, j: int|
                    0 <= i < log.changes@.len() && 0 <= j < log.changes@[i].ops@.len()
                        && (#[trigger] log.changes@[i].ops@[j]).container == target_idx && crate::doc_state::op_idlp(
                        log.changes@[i],
                        log.changes@[i].ops@[j],
                    ) == x;
                assert(i < ci);
            }
        }
        proof {
            match best {
                Some(x) => {
                    assert(is_op_extremum(a, log, cid@, latest, x));
                    let y = choose|y: IdLp| is_op_extremum(a, log, cid@, latest, y);
                    assert(x == y) by {
                        assert(all.contains(y) && all.contains(x));
                    }
                },
                None => {
                    assert(!exists|x: IdLp| is_op_extremum(a, log, cid@, latest, x)) by {
                        if exists|x: IdLp| is_op_extremum(a, log, cid@, latest, x) {
                            let x = choose|x: IdLp| is_op_extremum(a, log, cid@, latest, x);
                            assert(all.contains(x));
                        }
                    }
                },
            }
        }
        best
    }

    /// The stamp of the first operation on the mergeable container `cid`:
    /// the least stamp in `(lamport, peer)` order among its operations.
    /// Nothing for an identifier that is not mergeable, not registered, or
    /// without operations.
    pub fn mergeable_first_op_idlp(&self, oplog: &OpLog, cid: &ContainerID) -> (r: Option<IdLp>)
        requires
            self.wf(),
            oplog.wf(),
        ensures
            r == op_extremum(self@.arena, *oplog, cid@, false),
    {
        self.op_idlp_extremum_of(oplog, cid, OpIdlpExtremum::Min)
    }

    /// The stamp of the last operation on the mergeable container `cid`:
    /// the greatest stamp in `(lamport, peer)` order among its operations.
    /// Nothing for an identifier that is not mergeable, not registered, or
    /// without operations.
    pub fn mergeable_max_op_idlp(&self, oplog: &OpLog, cid: &ContainerID) -> (r: Option<IdLp>)
        requires
            self.wf(),
            oplog.wf(),
        ensures
            r == op_extremum(self@.arena, *oplog, cid@, true),
    {
        self.op_idlp_extremum_of(oplog, cid, OpIdlpExtremum::Max)
    }
}

/// A container state after evicting the children of a map that its
/// tombstones dominate; other states stay.
pub open spec fn reconciled(a: ArenaView, log: OpLog, s: Option<ContainerStateView>) -> Option<ContainerStateView> {
    match s {
        Some(ContainerStateView::Mapping(m)) => Some(
            ContainerStateView::Mapping(without_children(m, dominated_children(a, log, m))),
        ),
        _ => s,
    }
}

/// Some map among `idxs` has a child to evict.
pub open spec fn any_dominated(d: DocStateView, log: OpLog, idxs: Seq<ContainerIdx>) -> bool {
    exists|i: int|
        0 <= i < idxs.len() && (#[trigger] map_at(d.store, idxs[i] as int) matches Some(m)
            && !dominated_children(d.arena, log, m).is_empty())
}

/// Some map state of the document has a child to evict.
pub open spec fn some_map_dominated(d: DocStateView, log: OpLog) -> bool {
    exists|i: int|
        0 <= i < d.store.len() && (#[trigger] map_at(d.store, i) matches Some(m) && !dominated_children(d.arena, log, m).is_empty())
}

/// After reconciliation, a mergeable child registered under a key with a
/// tombstone is reachable: operations were applied to it and its last one
/// is later than the tombstone.
pub proof fn law_reconciled_children_reachable(a: ArenaView, log: OpLog, m: MapStateView)
    ensures
        forall|c: ContainerIdView|
            #[trigger] without_children(m, dominated_children(a, log, m)).children.contains_key(c) && c.is_mergeable()
                && m.tombstones.contains_key(m.children[c]) ==> (op_extremum(a, log, c, true) matches Some(x) && idlp_lt(
                m.tombstones[m.children[c]],
                x,
            )),
{
    assert forall|c: ContainerIdView|
        #[trigger] without_children(m, dominated_children(a, log, m)).children.contains_key(c) && c.is_mergeable()
            && m.tombstones.contains_key(m.children[c]) implies (op_extremum(a, log, c, true) matches Some(x) && idlp_lt(
            m.tombstones[m.children[c]],
            x,
        )) by {
        assert(m.children.contains_key(c));
        assert(!dominated_children(a, log, m).contains(c));
    }
}

/// Reconciling a map state evicts exactly the mergeable children under a
/// tombstoned key that have no operation or whose last operation is not
/// later than the tombstone; every other child stays under its key, and
/// the registers and tombstones stay.
pub proof fn law_reconcile_evicts_only_dominated(a: ArenaView, log: OpLog, m: MapStateView)
    ensures
        reconciled(a, log, Some(ContainerStateView::Mapping(m))) is Some,
        reconciled(a, log, Some(ContainerStateView::Mapping(m)))->0 is Mapping,
        forall|r: MapStateView|
            reconciled(a, log, Some(ContainerStateView::Mapping(m))) == Some(ContainerStateView::Mapping(r)) ==> {
                &&& r.map == m.map
                &&& r.tombstones == m.tombstones
                &&& r.idx == m.idx
                &&& forall|c: ContainerIdView| #[trigger] r.children.contains_key(c) ==> m.children.contains_key(c) && r.children[c] == m.children[c]
                &&& forall|c: ContainerIdView|
                    #[trigger] m.children.contains_key(c) ==> (r.children.contains_key(c) <==> (!c.is_mergeable()
                        || !m.tombstones.contains_key(m.children[c]) || (op_extremum(a, log, c, true) matches Some(x)
                        && idlp_lt(m.tombstones[m.children[c]], x))))
            },
{
    let dm = dominated_children(a, log, m);
    let r0 = without_children(m, dm);
    assert forall|c: ContainerIdView| #[trigger] m.children.contains_key(c) implies (r0.children.contains_key(c) <==> (
    !c.is_mergeable() || !m.tombstones.contains_key(m.children[c]) || (op_extremum(a, log, c, true) matches Some(x)
        && idlp_lt(m.tombstones[m.children[c]], x)))) by {
        if dm.contains(c) {
            assert(!r0.children.contains_key(c));
        } else {
            assert(r0.children.contains_key(c));
        }
    }
}

/// Reconciling twice changes nothing the second time.
pub proof fn law_reconcile_idempotent(a: ArenaView, log: OpLog, m: MapStateView)
    ensures
        dominated_children(a, log, without_children(m, dominated_children(a, log, m))).is_empty(),
{
    let dm = dominated_children(a, log, m);
    let m2 = without_children(m, dm);
    assert(dominated_children(a, log, m2) =~= Set::<ContainerIdView>::empty()) by {
        assert forall|c: ContainerIdView| !#[trigger] dominated_children(a, log, m2).contains(c) by {
            if dominated_children(a, log, m2).contains(c) {
                assert(m.children.contains_key(c));
                assert(m2.children[c] == m.children[c]);
                assert(dm.contains(c));
            }
        }
    }
}

pub proof fn lemma_ids_view_push(s: Seq<ContainerID>, c: ContainerID)
    ensures
        crate::map_state::ids_view(s.push(c)) == crate::map_state::ids_view(s).push(c@),
        forall|x: ContainerIdView| #[trigger] crate::map_state::ids_view(s.push(c)).contains(x)
            <==> (crate::map_state::ids_view(s).contains(x) || x == c@),
{
    let t = crate::map_state::ids_view(s.push(c));
    let u = crate::map_state::ids_view(s);
    assert(t =~= u.push(c@));
    assert forall|x: ContainerIdView| #[trigger] t.contains(x) <==> (u.contains(x) || x == c@) by {
        if u.contains(x) {
            let j = choose|j: int| 0 <= j < u.len() && u[j] == x;
            assert(t[j] == x);
        }
        if x == c@ {
            assert(t[u.len() as int] == x);
        }
        if t.contains(x) {
            let j = choose|j: int| 0 <= j < t.len() && t[j] == x;
            if j < u.len() {
                assert(u[j] == x);
            }
        }
    }
}

impl DocState {
    /// Evict the children `cids` from the map state of `idx`.
    fn evict_children_at(&mut self, idx: ContainerIdx, cids: &Vec<ContainerID>)
        requires
            old(self).wf(),
        ensures
            final(self).wf(),
            final(self)@.arena == old(self)@.arena,
            final(self)@.cache == old(self)@.cache,
            final(self)@.store.len() == old(self)@.store.len(),
            forall|i: int| i != idx ==> #[trigger] state_at(final(self)@.store, i) == state_at(old(self)@.store, i),
            state_at(final(self)@.store, idx as int) == match map_at(old(self)@.store, idx as int) {
                Some(m) => Some(ContainerStateView::Mapping(without_children(m, crate::map_state::ids_view(cids@).to_set()))),
                None => state_at(old(self)@.store, idx as int),
            },
    {
        let ghost d0 = self@;
        let taken = self.store.take(idx);
        match taken {
            Some(ContainerState::Mapping(mut m)) => {
                let ghost m0 = m@;
                let mut k: usize = 0;
                assert(crate::map_state::ids_view(cids@.take(0)).to_set() =~= Set::<ContainerIdView>::empty());
                assert(m0.children.remove_keys(Set::<ContainerIdView>::empty()) =~= m0.children);
                while k < cids.len()
                    invariant
                        m.wf(),
                        k <= cids@.len(),
                        m@ == without_children(m0, crate::map_state::ids_view(cids@.take(k as int)).to_set()),
                    decreases cids@.len() - k,
                {
                    m.evict_mergeable_child_cid(&cids[k]);
                    proof {
                        assert(cids@.take(k + 1) =~= cids@.take(k as int).push(cids@[k as int]));
                        lemma_ids_view_push(cids@.take(k as int), cids@[k as int]);
                        let s0 = crate::map_state::ids_view(cids@.take(k as int)).to_set();
                        let s1 = crate::map_state::ids_view(cids@.take(k + 1)).to_set();
                        assert(s1 =~= s0.insert(cids@[k as int]@));
                        assert(m@.children =~= m0.children.remove_keys(s1));
                    }
                    k = k + 1;
                }
                assert(cids@.take(cids@.len() as int) =~= cids@);
                self.store.put(idx, ContainerState::Mapping(m));
                assert forall|i: int| i != idx implies #[trigger] state_at(self@.store, i) == state_at(old(self)@.store, i) by {
                    if 0 <= i < self@.store.len() {
                        assert(self@.store[i] == state_at(old(self)@.store.update(idx as int, None), i));
                    }
                }
            },
            Some(other) => {
                self.store.put(idx, other);
                assert forall|i: int| i != idx implies #[trigger] state_at(self@.store, i) == state_at(old(self)@.store, i) by {
                    if 0 <= i < self@.store.len() {
                        assert(self@.store[i] == state_at(old(self)@.store.update(idx as int, None), i));
                    }
                }
                assert(self@.store =~= old(self)@.store);
            },
            None => {
                assert(self@.store =~= old(self)@.store);
            },
        }
        proof {
            crate::lww::lemma_consistent_after_change(d0, self@, idx as int);
        }
    }

    /// The mergeable children of `m` that a tombstone dominates.
    fn dominated_children_list(&self, oplog: &OpLog, m: &crate::map_state::MapState) -> (r: Vec<ContainerID>)
        requires
            self.wf(),
            oplog.wf(),
            m.wf(),
        ensures
            crate::map_state::ids_view(r@).to_set() == dominated_children(self@.arena, *oplog, m@),
    {
        let ghost a = self@.arena;
        let ghost log = *oplog;
        let ghost mv = m@;
        let ghost dom_all = dominated_children(a, log, mv);
        let tombstones = m.iter_mergeable_tombstones();
        proof {
            crate::str_map::lemma_sorted_unique(tombstones@);
            crate::str_map::lemma_seq_map(tombstones@);
        }
        let mut r: Vec<ContainerID> = Vec::new();
        let ghost mut processed: Set<Seq<char>> = Set::empty();
        let mut i: usize = 0;
        while i < tombstones.len()
            invariant
                self.wf(),
                oplog.wf(),
                log == *oplog,
                a == self@.arena,
                mv == m@,
                m.wf(),
                dom_all == dominated_children(a, log, mv),
                crate::str_map::seq_map(tombstones@) == mv.tombstones,
                crate::str_map::unique_keys(tombstones@),
                i <= tombstones@.len(),
                processed =~= Set::new(|k: Seq<char>| exists|j: int| 0 <= j < i && tombstones@[j].0@ == k),
                crate::map_state::ids_view(r@).to_set() =~= dom_all.filter(|c: ContainerIdView| processed.contains(mv.children[c])),
            decreases tombstones@.len() - i,
        {
            let key = &tombstones[i].0;
            let t = tombstones[i].1;
            let ghost kv = key@;
            proof {
                crate::str_map::lemma_seq_map(tombstones@);
                assert(crate::str_map::seq_map(tombstones@).contains_key(tombstones@[i as int].0@));
                assert(mv.tombstones.contains_key(kv) && mv.tombstones[kv] == t);
            }
            let cids = m.mergeable_child_ids_for_key(key.as_str());
            let ghost r_before = crate::map_state::ids_view(r@).to_set();
            let mut j: usize = 0;
            while j < cids.len()
                invariant
                    self.wf(),
                    oplog.wf(),
                    log == *oplog,
                    a == self@.arena,
                    mv == m@,
                    dom_all == dominated_children(a, log, mv),
                    mv.tombstones.contains_key(kv) && mv.tombstones[kv] == t,
                    j <= cids@.len(),
                    forall|x: int| 0 <= x < cids@.len() ==> #[trigger] mergeable_under(mv.children, kv).contains(cids@[x]@),
                    crate::map_state::ids_view(r@).to_set() =~= r_before.union(
                        Set::new(|c: ContainerIdView| exists|x: int| 0 <= x < j && cids@[x]@ == c && dom_all.contains(c)),
                    ),
                decreases cids@.len() - j,
            {
                let max = self.mergeable_max_op_idlp(oplog, &cids[j]);
                let dominated = match max {
                    Some(x) => x.le(&t),
                    None => true,
                };
                let ghost c = cids@[j as int]@;
                proof {
                    assert(mergeable_under(mv.children, kv).contains(c));
                    assert(dominated == dom_all.contains(c));
                }
                let ghost before = r@;
                if dominated {
                    r.push(cids[j].clone_id());
                    proof {
                        lemma_ids_view_push(before, cids@[j as int]);
                    }
                }
                proof {
                    let n1 = Set::new(|c2: ContainerIdView| exists|x: int| 0 <= x < j && cids@[x]@ == c2 && dom_all.contains(c2));
                    let n2 = Set::new(|c2: ContainerIdView| exists|x: int| 0 <= x < j + 1 && cids@[x]@ == c2 && dom_all.contains(c2));
                    assert forall|c2: ContainerIdView| n2.contains(c2) <==> (n1.contains(c2) || (c2 == c && dom_all.contains(c))) by {
                        if n2.contains(c2) {
                            let x = choose|x: int| 0 <= x < j + 1 && cids@[x]@ == c2 && dom_all.contains(c2);
                            if x < j {
                                assert(n1.contains(c2));
                            }
                        }
                        if c2 == c && dom_all.contains(c) {
                            assert(cids@[j as int]@ == c2);
                        }
                    }
                    if dominated {
                        assert forall|x: ContainerIdView| crate::map_state::ids_view(r@).to_set().contains(x) <==> (crate::map_state::ids_view(before).to_set().contains(x) || x == c) by {
                            assert(crate::map_state::ids_view(r@).contains(x) <==> (crate::map_state::ids_view(before).contains(x) || x == c));
                        }
                        assert(crate::map_state::ids_view(before).to_set() =~= r_before.union(n1));
                        assert(dom_all.contains(c));
                        assert forall|x: ContainerIdView| crate::map_state::ids_view(r@).to_set().contains(x) <==> r_before.union(n2).contains(x) by {
                            assert(crate::map_state::ids_view(r@).to_set().contains(x) == (crate::map_state::ids_view(before).to_set().contains(x) || x == c));
                            assert(crate::map_state::ids_view(before).to_set().contains(x) == r_before.union(n1).contains(x));
                            assert(n2.contains(x) <==> (n1.contains(x) || (x == c && dom_all.contains(c))));
                        }
                        assert(crate::map_state::ids_view(r@).to_set() =~= r_before.union(n2));
                    } else {
                        assert(r_before.union(n2) =~= r_before.union(n1));
                    }
                }
                j = j + 1;
            }
            proof {
                let n = Set::new(|c2: ContainerIdView| exists|x: int| 0 <= x < cids@.len() && cids@[x]@ == c2 && dom_all.contains(c2));
                let old_processed = processed;
                processed = processed.insert(kv);
                assert(n =~= dom_all.filter(|c2: ContainerIdView| mv.children[c2] == kv)) by {
                    assert forall|c2: ContainerIdView| dom_all.contains(c2) && mv.children[c2] == kv implies n.contains(c2) by {
                        assert(mergeable_under(mv.children, kv).contains(c2));
                        let x = choose|x: int| 0 <= x < cids@.len() && cids@[x]@ == c2;
                    }
                    assert forall|c2: ContainerIdView| n.contains(c2) implies dom_all.contains(c2) && mv.children[c2] == kv by {
                        let x = choose|x: int| 0 <= x < cids@.len() && cids@[x]@ == c2 && dom_all.contains(c2);
                        assert(mergeable_under(mv.children, kv).contains(cids@[x]@));
                    }
                }
                assert(processed =~= Set::new(|k: Seq<char>| exists|j2: int| 0 <= j2 < i + 1 && tombstones@[j2].0@ == k)) by {
                    assert forall|k: Seq<char>| processed.contains(k) <==> exists|j2: int| 0 <= j2 < i + 1 && tombstones@[j2].0@ == k by {
                        if processed.contains(k) {
                            if k == kv {
                                assert(tombstones@[i as int].0@ == k);
                            } else {
                                let j2 = choose|j2: int| 0 <= j2 < i && tombstones@[j2].0@ == k;
                            }
                        }
                        if exists|j2: int| 0 <= j2 < i + 1 && tombstones@[j2].0@ == k {
                            let j2 = choose|j2: int| 0 <= j2 < i + 1 && tombstones@[j2].0@ == k;
                            if j2 < i {
                                assert(old_processed.contains(k));
                            }
                        }
                    }
                }
                assert(crate::map_state::ids_view(r@).to_set() =~= dom_all.filter(|c2: ContainerIdView| processed.contains(mv.children[c2])));
            }
            i = i + 1;
        }
        proof {
            assert(dom_all.filter(|c2: ContainerIdView| processed.contains(mv.children[c2])) =~= dom_all) by {
                assert forall|c2: ContainerIdView| dom_all.contains(c2) implies processed.contains(mv.children[c2]) by {
                    let k = mv.children[c2];
                    assert(mv.tombstones.contains_key(k));
                    let j2 = choose|j2: int| 0 <= j2 < tombstones@.len() && tombstones@[j2].0@ == k;
                }
            }
        }
        r
    }
}

impl DocState {
    /// Evict, from the map states of `map_parent_idxs`, every mergeable
    /// child that a tombstone of its key dominates (its last operation is
    /// not later than the delete, or it has none). Other children stay,
    /// even under the same key. When anything was evicted, the containers
    /// cached as alive are forgotten.
    pub fn reconcile_mergeable_tombstones_for(&mut self, oplog: &OpLog, map_parent_idxs: &[ContainerIdx])
        requires
            old(self).wf(),
            oplog.wf(),
        ensures
            final(self).wf(),
            final(self)@.arena == old(self)@.arena,
            final(self)@.store.len() == old(self)@.store.len(),
            forall|i: ContainerIdx| #[trigger] state_at(final(self)@.store, i as int) == if map_parent_idxs@.contains(i) {
                reconciled(old(self)@.arena, *oplog, state_at(old(self)@.store, i as int))
            } else {
                state_at(old(self)@.store, i as int)
            },
            final(self)@.cache == if any_dominated(old(self)@, *oplog, map_parent_idxs@) {
                old(self)@.cache.restrict(old(self)@.cache.dom().filter(|k: ContainerIdx| old(self)@.cache[k]))
            } else {
                old(self)@.cache
            },
    {
        let ghost d = self@;
        let ghost a = self@.arena;
        let ghost log = *oplog;
        let ghost idxs = map_parent_idxs@;
        let mut did_evict = false;
        let mut i: usize = 0;
        while i < map_parent_idxs.len()
            invariant
                self.wf(),
                oplog.wf(),
                log == *oplog,
                idxs == map_parent_idxs@,
                self@.arena == a,
                self@.cache == d.cache,
                a == d.arena,
                i <= idxs.len(),
                self@.store.len() == d.store.len(),
                forall|j: ContainerIdx| #[trigger] state_at(self@.store, j as int) == if idxs.take(i as int).contains(j) {
                    reconciled(a, log, state_at(d.store, j as int))
                } else {
                    state_at(d.store, j as int)
                },
                did_evict == any_dominated(d, log, idxs.take(i as int)),
            decreases idxs.len() - i,
        {
            let p = map_parent_idxs[i];
            let ghost cur = self@;
            let ghost t0 = idxs.take(i as int);
            let ghost t1 = idxs.take(i + 1);
            proof {
                assert(t1 =~= t0.push(p));
                assert forall|k: ContainerIdx| t1.contains(k) <==> (t0.contains(k) || k == p) by {
                    if t0.contains(k) {
                        let j = choose|j: int| 0 <= j < t0.len() && t0[j] == k;
                        assert(t1[j] == k);
                    }
                    if k == p {
                        assert(t1[i as int] == k);
                    }
                    if t1.contains(k) {
                        let j = choose|j: int| 0 <= j < t1.len() && t1[j] == k;
                        if j < i {
                            assert(t0[j] == k);
                        }
                    }
                }
            }
            let ghost mcur = map_at(cur.store, p as int);
            let dominated = match self.store.get(p) {
                Some(ContainerState::Mapping(m)) => self.dominated_children_list(oplog, m),
                _ => Vec::new(),
            };
            assert(mcur matches Some(m) ==> crate::map_state::ids_view(dominated@).to_set() == dominated_children(a, log, m));
            assert(mcur is None ==> dominated@.len() == 0);
            proof {
                if t0.contains(p) {
                    match map_at(d.store, p as int) {
                        Some(m0) => {
                            law_reconcile_idempotent(a, log, m0);
                            assert(crate::map_state::ids_view(dominated@).to_set().is_empty());
                        },
                        None => {},
                    }
                }
            }
            if dominated.len() > 0 {
                did_evict = true;
                self.evict_children_at(p, &dominated);
            } else {
                proof {
                    assert(crate::map_state::ids_view(dominated@) =~= Seq::<ContainerIdView>::empty());
                    assert(crate::map_state::ids_view(dominated@).to_set() =~= Set::<ContainerIdView>::empty());
                    match map_at(cur.store, p as int) {
                        Some(m) => {
                            assert(m.children.remove_keys(Set::<ContainerIdView>::empty()) =~= m.children);
                        },
                        None => {},
                    }
                }
            }
            proof {
                assert forall|j: ContainerIdx| #[trigger] state_at(self@.store, j as int) == if t1.contains(j) {
                    reconciled(a, log, state_at(d.store, j as int))
                } else {
                    state_at(d.store, j as int)
                } by {
                    if j != p {
                        assert(t1.contains(j) == t0.contains(j));
                        assert(state_at(self@.store, j as int) == state_at(cur.store, j as int));
                    } else {
                        match map_at(d.store, p as int) {
                            None => {
                                assert(state_at(cur.store, j as int) == state_at(d.store, j as int));
                                assert(mcur is None);
                            },
                            Some(m0) => {
                                let e = Set::<ContainerIdView>::empty();
                                assert(m0.children.remove_keys(e) =~= m0.children);
                                assert(without_children(m0, e) == m0);
                                if t0.contains(p) {
                                    law_reconcile_idempotent(a, log, m0);
                                    let m1 = without_children(m0, dominated_children(a, log, m0));
                                    assert(mcur == Some(m1));
                                    assert(m1.children.remove_keys(e) =~= m1.children);
                                    assert(without_children(m1, e) == m1);
                                    assert(dominated_children(a, log, m1) =~= e);
                                } else {
                                    assert(mcur == Some(m0));
                                    if dominated.len() == 0 {
                                        assert(crate::map_state::ids_view(dominated@) =~= Seq::<ContainerIdView>::empty());
                                        assert(dominated_children(a, log, m0) =~= e);
                                    }
                                }
                            },
                        }
                    }
                }
                assert(did_evict == any_dominated(d, log, t1)) by {
                    if any_dominated(d, log, t1) && !any_dominated(d, log, t0) {
                        let w = choose|w: int| 0 <= w < t1.len() && (#[trigger] map_at(d.store, t1[w] as int) matches Some(m)
                            && !dominated_children(d.arena, log, m).is_empty());
                        assert(w == i);
                        assert(!t0.contains(p)) by {
                            if t0.contains(p) {
                                let w2 = choose|w2: int| 0 <= w2 < t0.len() && t0[w2] == p;
                                assert(map_at(d.store, t0[w2] as int) == map_at(d.store, t1[w] as int));
                            }
                        }
                        let m = map_at(d.store, p as int)->0;
                        let x = dominated_children(d.arena, log, m).choose();
                        assert(crate::map_state::ids_view(dominated@).to_set().contains(x));
                    }
                    if any_dominated(d, log, t0) {
                        let w = choose|w: int| 0 <= w < t0.len() && (#[trigger] map_at(d.store, t0[w] as int) matches Some(m)
                            && !dominated_children(d.arena, log, m).is_empty());
                        assert(t1[w] == t0[w]);
                    }
                    if dominated.len() > 0 && !any_dominated(d, log, t0) {
                        assert(!t0.contains(p)) by {
                            if t0.contains(p) {
                                assert(crate::map_state::ids_view(dominated@)[0] == dominated@[0]@);
                                assert(crate::map_state::ids_view(dominated@).to_set().contains(dominated@[0]@));
                            }
                        }
                        assert(crate::map_state::ids_view(dominated@)[0] == dominated@[0]@);
                        assert(crate::map_state::ids_view(dominated@).to_set().contains(dominated@[0]@));
                        assert(t1[i as int] == p);
                    }
                }
            }
            i = i + 1;
        }
        assert(idxs.take(idxs.len() as int) =~= idxs);
        if did_evict {
            self.dead_containers_cache.clear_alive();
        }
    }

    /// Reconcile the tombstones of every map state of the document.
    pub fn reconcile_mergeable_tombstones(&mut self, oplog: &OpLog)
        requires
            old(self).wf(),
            oplog.wf(),
        ensures
            final(self).wf(),
            final(self)@.arena == old(self)@.arena,
            final(self)@.store.len() == old(self)@.store.len(),
            forall|i: ContainerIdx| #[trigger] state_at(final(self)@.store, i as int) == reconciled(old(self)@.arena, *oplog, state_at(old(self)@.store, i as int)),
            final(self)@.cache == if some_map_dominated(old(self)@, *oplog) {
                old(self)@.cache.restrict(old(self)@.cache.dom().filter(|k: ContainerIdx| old(self)@.cache[k]))
            } else {
                old(self)@.cache
            },
    {
        let mut idxs: Vec<ContainerIdx> = Vec::new();
        let n = self.store.len();
        let mut i: usize = 0;
        while i < n
            invariant
                self.wf(),
                n == self@.store.len(),
                i <= n,
                forall|k: ContainerIdx| #[trigger] idxs@.contains(k) <==> (k < i && map_at(self@.store, k as int) is Some),
            decreases n - i,
        {
            let ghost before = idxs@;
            match self.store.get(i as ContainerIdx) {
                Some(ContainerState::Mapping(_)) => {
                    idxs.push(i as ContainerIdx);
                    assert forall|k: ContainerIdx| #[trigger] idxs@.contains(k) <==> (k < i + 1 && map_at(self@.store, k as int) is Some) by {
                        if before.contains(k) {
                            let j = choose|j: int| 0 <= j < before.len() && before[j] == k;
                            assert(idxs@[j] == k);
                        }
                        if k == i {
                            assert(idxs@[before.len() as int] == k);
                        }
                        if idxs@.contains(k) {
                            let j = choose|j: int| 0 <= j < idxs@.len() && idxs@[j] == k;
                            if j < before.len() {
                                assert(before[j] == k);
                            }
                        }
                    }
                },
                _ => {},
            }
            i = i + 1;
        }
        let ghost old_store = self@.store;
        let ghost d0 = self@;
        assert(any_dominated(d0, *oplog, idxs@) == some_map_dominated(d0, *oplog)) by {
            if any_dominated(d0, *oplog, idxs@) {
                let j = choose|j: int|
                    0 <= j < idxs@.len() && (#[trigger] map_at(d0.store, idxs@[j] as int) matches Some(m)
                        && !dominated_children(d0.arena, *oplog, m).is_empty());
                assert(idxs@.contains(idxs@[j]));
                assert(map_at(d0.store, idxs@[j] as int) is Some);
                assert(0 <= idxs@[j] as int && (idxs@[j] as int) < d0.store.len());
            }
            if some_map_dominated(d0, *oplog) {
                let i = choose|i: int|
                    0 <= i < d0.store.len() && (#[trigger] map_at(d0.store, i) matches Some(m) && !dominated_children(d0.arena, *oplog, m).is_empty());
                assert(i < u32::MAX) by {
                    assert(d0.store.len() <= d0.arena.len());
                }
                assert(idxs@.contains(i as ContainerIdx));
                let j = choose|j: int| 0 <= j < idxs@.len() && idxs@[j] == i as ContainerIdx;
                assert(map_at(d0.store, idxs@[j] as int) == map_at(d0.store, i));
            }
        }
        self.reconcile_mergeable_tombstones_for(oplog, idxs.as_slice());
        assert forall|j: ContainerIdx| #[trigger] state_at(self@.store, j as int) == reconciled(old(self)@.arena, *oplog, state_at(old(self)@.store, j as int)) by {
            if !idxs@.contains(j) {
                assert(map_at(old_store, j as int) is None);
            }
        }
    }

    /// The mergeable children of the map state of `container`, each with
    /// the key it hangs under; nothing when it is not a map.
    pub fn collect_mergeable_children_of(&self, container: ContainerIdx) -> (r: Vec<(String, ContainerID)>)
        requires
            self.wf(),
        ensures
            match map_at(self@.store, container as int) {
                Some(m) => lists_mergeable_children(m.children, r@),
                None => r@.len() == 0,
            },
    {
        match self.store.get(container) {
            Some(s) => match s {
                ContainerState::Mapping(m) => {
                    assert(s@ == ContainerStateView::Mapping(m@));
                    assert(map_at(self@.store, container as int) == Some(m@));
                    m.iter_mergeable_children()
                },
                _ => Vec::new(),
            },
            None => Vec::new(),
        }
    }
}

} // verus!

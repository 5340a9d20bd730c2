//! What registering mergeable children keeps: a second registration of
//! the same identifiers changes nothing.

use vstd::prelude::*;
use crate::child_table::{mergeable_under, without_mergeable_under};
use crate::doc_state::{unique_op_stamps, state_at, ArenaView, ContainerStateView, DocStateView, OpLog};
use crate::lww::{registered, has_group, apply_decision, apply_decisions, candidates, decided, decisions_ok, default_state, in_group, is_winner, side_tables_consistent, table_of, tombstone_of, eligible, store_put};
use crate::mergeable::{arena_index, map_at, op_extremum, is_op_extremum};
use crate::types::{idlp_le, idlp_lt, ContainerIdView, ContainerIdx, IdLp};

verus! {

/// The children registered in the map state of slot `i`; none when it is
/// not a map.
pub open spec fn children_at(store: Seq<Option<ContainerStateView>>, i: int) -> Map<ContainerIdView, Seq<char>> {
    match map_at(store, i) {
        Some(m) => m.children,
        None => Map::empty(),
    }
}

/// The tombstones of the map state of slot `i`; none when it is not a map.
pub open spec fn tombs_at(store: Seq<Option<ContainerStateView>>, i: int) -> Map<Seq<char>, IdLp> {
    match map_at(store, i) {
        Some(m) => m.tombstones,
        None => Map::empty(),
    }
}

/// Every mergeable child registered in a map state of `store` hangs
/// under its own key.
pub open spec fn keyed(store: Seq<Option<ContainerStateView>>) -> bool {
    forall|i: int, c: ContainerIdView|
        #[trigger] children_at(store, i).contains_key(c) && c.is_mergeable() ==> children_at(store, i)[c] == c->Mergeable_key
}

/// Some decision of `ds` concerns key `k` of slot `i`.
pub open spec fn decides(ds: Seq<(ContainerIdx, Seq<char>, ContainerIdView)>, i: int, k: Seq<char>) -> bool {
    exists|j: int| 0 <= j < ds.len() && ds[j].0 == i && ds[j].1 == k
}

/// Some decision of `ds` concerns slot `i`.
pub open spec fn touches(ds: Seq<(ContainerIdx, Seq<char>, ContainerIdView)>, i: int) -> bool {
    exists|j: int| 0 <= j < ds.len() && ds[j].0 == i
}

/// What applying the decisions `ds` does to each slot: a slot that had a
/// state or is decided on has one; map slots keep their tombstones; the
/// mergeable children under a decided key are exactly its winner, and
/// those under other keys stay.
pub proof fn lemma_apply_decisions(
    store: Seq<Option<ContainerStateView>>,
    a: ArenaView,
    ds: Seq<(ContainerIdx, Seq<char>, ContainerIdView)>,
)
    requires
        forall|j: int| 0 <= j < ds.len() ==> (#[trigger] ds[j]).2 is Mergeable && ds[j].2->Mergeable_key == ds[j].1,
        forall|j1: int, j2: int| 0 <= j1 < j2 < ds.len() ==> !((#[trigger] ds[j1]).0 == (#[trigger] ds[j2]).0 && ds[j1].1 == ds[j2].1),
        keyed(store),
    ensures
        ({
            let r = apply_decisions(store, a, ds);
            &&& keyed(r)
            &&& forall|i: int| (state_at(store, i) is Some || touches(ds, i)) ==> #[trigger] state_at(r, i) is Some
            &&& forall|i: int| #![trigger map_at(r, i)] map_at(store, i) is Some ==> map_at(r, i) is Some
            &&& forall|i: int| #![trigger map_at(r, i)] map_at(r, i) is Some ==> tombs_at(r, i) == tombs_at(store, i)
            &&& forall|i: int, k: Seq<char>|
                #![trigger mergeable_under(children_at(r, i), k)]
                map_at(r, i) is Some && !decides(ds, i, k) ==> mergeable_under(children_at(r, i), k)
                    == mergeable_under(children_at(store, i), k)
            &&& forall|j: int|
                #![trigger ds[j]]
                0 <= j < ds.len() && map_at(r, ds[j].0 as int) is Some ==> {
                    &&& mergeable_under(children_at(r, ds[j].0 as int), ds[j].1) == Set::<ContainerIdView>::empty().insert(ds[j].2)
                    &&& children_at(r, ds[j].0 as int).contains_key(ds[j].2)
                    &&& children_at(r, ds[j].0 as int)[ds[j].2] == ds[j].1
                }
        }),
    decreases ds.len(),
{
    if ds.len() > 0 {
        let ds0 = ds.drop_last();
        let dec = ds.last();
        assert forall|j1: int, j2: int| 0 <= j1 < j2 < ds0.len() implies !((#[trigger] ds0[j1]).0 == (#[trigger] ds0[j2]).0 && ds0[j1].1 == ds0[j2].1) by {
            assert(ds0[j1] == ds[j1] && ds0[j2] == ds[j2]);
        }
        assert forall|j: int| 0 <= j < ds0.len() implies (#[trigger] ds0[j]).2 is Mergeable && ds0[j].2->Mergeable_key == ds0[j].1 by {
            assert(ds0[j] == ds[j]);
        }
        lemma_apply_decisions(store, a, ds0);
        let r0 = apply_decisions(store, a, ds0);
        let r = apply_decisions(store, a, ds);
        assert(r == apply_decision(r0, a, dec));
        let pi = dec.0 as int;
        let s = match state_at(r0, pi) {
            Some(s) => s,
            None => default_state(a.ids[pi], dec.0),
        };
        let s2 = match s {
            ContainerStateView::Mapping(m) => ContainerStateView::Mapping(
                crate::map_state::MapStateView { children: without_mergeable_under(m.children, dec.1).insert(dec.2, dec.1), ..m },
            ),
            other => other,
        };
        assert(r == store_put(r0, dec.0, s2));
        assert(state_at(r, pi) == Some(s2));
        assert forall|i: int| i != pi implies #[trigger] state_at(r, i) == state_at(r0, i) by {
        }
        assert(dec == ds[ds.len() - 1]);
        assert(dec.2 is Mergeable && dec.2->Mergeable_key == dec.1);
        // The slot decided on last.
        assert(map_at(r, pi) is Some ==> children_at(r, pi) == without_mergeable_under(children_at(r0, pi), dec.1).insert(dec.2, dec.1)
            && tombs_at(r, pi) == tombs_at(r0, pi)) by {
        if map_at(r, pi) is Some {
            let m = match s {
                ContainerStateView::Mapping(m) => m,
                _ => crate::map_state::MapStateView { idx: 0, map: Map::empty(), children: Map::empty(), tombstones: Map::empty() },
            };
            assert(s is Mapping);
            assert(children_at(r, pi) == without_mergeable_under(m.children, dec.1).insert(dec.2, dec.1));
            assert(tombs_at(r, pi) == m.tombstones);
            if state_at(r0, pi) is None {
                assert(m.tombstones == Map::<Seq<char>, IdLp>::empty());
                assert(m.children == Map::<ContainerIdView, Seq<char>>::empty());
                assert(map_at(r0, pi) is None);
                assert(children_at(r0, pi) == m.children);
            } else {
                assert(map_at(r0, pi) == Some(m));
            }
            assert(children_at(r0, pi) == m.children);
            assert(tombs_at(r0, pi) == m.tombstones);
        }
        }
        assert forall|i: int, c: ContainerIdView|
            #[trigger] children_at(r, i).contains_key(c) && c.is_mergeable() implies children_at(r, i)[c] == c->Mergeable_key by {
            if i != pi {
                assert(map_at(r, i) == map_at(r0, i));
                assert(children_at(r, i) == children_at(r0, i));
                assert(children_at(r0, i).contains_key(c));
            } else if c == dec.2 {
                assert(map_at(r, pi) is Some);
                assert(children_at(r, pi)[c] == dec.1);
            } else {
                assert(map_at(r, pi) is Some);
                let c0 = children_at(r0, pi);
                assert(without_mergeable_under(c0, dec.1).contains_key(c));
                assert(c0.contains_key(c));
                assert(without_mergeable_under(c0, dec.1)[c] == c0[c]);
            }
        }
        assert forall|i: int| (state_at(store, i) is Some || touches(ds, i)) implies #[trigger] state_at(r, i) is Some by {
            if i != pi {
                if touches(ds, i) {
                    let j = choose|j: int| 0 <= j < ds.len() && ds[j].0 == i;
                    assert(j < ds0.len());
                    assert(ds0[j] == ds[j]);
                    assert(touches(ds0, i));
                }
            }
        }
        assert forall|i: int| #![trigger map_at(r, i)] map_at(store, i) is Some implies map_at(r, i) is Some by {
            if i != pi {
                assert(map_at(r, i) == map_at(r0, i));
            } else {
                assert(map_at(r0, pi) is Some);
                assert(s is Mapping);
            }
        }
        assert forall|i: int| #![trigger map_at(r, i)] map_at(r, i) is Some implies tombs_at(r, i) == tombs_at(store, i) by {
            if i != pi {
                assert(map_at(r, i) == map_at(r0, i));
            } else if state_at(r0, pi) is Some {
                assert(map_at(r0, pi) is Some);
            } else {
                if map_at(store, pi) is Some {
                    assert(state_at(store, pi) is Some);
                }
            }
        }
        assert forall|i: int, k: Seq<char>|
            #![trigger mergeable_under(children_at(r, i), k)]
            map_at(r, i) is Some && !decides(ds, i, k) implies mergeable_under(children_at(r, i), k)
                == mergeable_under(children_at(store, i), k) by {
            assert(!decides(ds0, i, k)) by {
                if decides(ds0, i, k) {
                    let j = choose|j: int| 0 <= j < ds0.len() && ds0[j].0 == i && ds0[j].1 == k;
                    assert(ds[j] == ds0[j]);
                }
            }
            if i != pi {
                assert(map_at(r, i) == map_at(r0, i));
                assert(children_at(r, i) == children_at(r0, i));
            } else {
                assert(k != dec.1) by {
                    if k == dec.1 {
                        assert(ds[ds.len() - 1] == dec);
                    }
                }
                let c0 = children_at(r0, pi);
                if c0.contains_key(dec.2) {
                    assert(c0[dec.2] == dec.1);
                }
                assert(mergeable_under(without_mergeable_under(c0, dec.1).insert(dec.2, dec.1), k) =~= mergeable_under(c0, k));
                if state_at(r0, pi) is Some {
                    assert(map_at(r0, pi) is Some);
                } else {
                    assert(c0 == Map::<ContainerIdView, Seq<char>>::empty());
                    if map_at(store, pi) is Some {
                        assert(state_at(store, pi) is Some);
                    }
                    assert(mergeable_under(children_at(store, pi), k) =~= Set::<ContainerIdView>::empty());
                    assert(mergeable_under(c0, k) =~= Set::<ContainerIdView>::empty());
                }
            }
        }
        assert forall|j: int|
            #![trigger ds[j]]
            0 <= j < ds.len() && map_at(r, ds[j].0 as int) is Some implies {
                &&& mergeable_under(children_at(r, ds[j].0 as int), ds[j].1) == Set::<ContainerIdView>::empty().insert(ds[j].2)
                &&& children_at(r, ds[j].0 as int).contains_key(ds[j].2)
                &&& children_at(r, ds[j].0 as int)[ds[j].2] == ds[j].1
            } by {
            let i = ds[j].0 as int;
            let k = ds[j].1;
            if j == ds.len() - 1 {
                let c0 = children_at(r0, pi);
                assert(mergeable_under(without_mergeable_under(c0, dec.1).insert(dec.2, dec.1), dec.1) =~= Set::<ContainerIdView>::empty().insert(dec.2));
            } else {
                assert(ds0[j] == ds[j]);
                if i != pi {
                    assert(map_at(r, i) == map_at(r0, i));
                } else {
                    assert(k != dec.1);
                    assert(state_at(r0, pi) is Some) by {
                        assert(touches(ds0, pi));
                    }
                    assert(map_at(r0, pi) is Some);
                    let c0 = children_at(r0, pi);
                    if c0.contains_key(dec.2) {
                        assert(c0[dec.2] == dec.1);
                    }
                    assert(mergeable_under(without_mergeable_under(c0, dec.1).insert(dec.2, dec.1), k) =~= mergeable_under(c0, k));
                }
            }
        }
    } else {
        assert(apply_decisions(store, a, ds) == store);
        assert forall|i: int| (state_at(store, i) is Some || touches(ds, i)) implies #[trigger] state_at(store, i) is Some by {
            if touches(ds, i) {
                let j = choose|j: int| 0 <= j < ds.len() && ds[j].0 == i;
            }
        }
        assert forall|i: int, k: Seq<char>|
            #![trigger mergeable_under(children_at(store, i), k)]
            map_at(store, i) is Some && !decides(ds, i, k) implies mergeable_under(children_at(store, i), k)
                == mergeable_under(children_at(store, i), k) by {
        }
    }
}

/// Two registered containers with the same first stamp are the same.
pub proof fn lemma_first_stamp_unique(a: ArenaView, log: OpLog, c1: ContainerIdView, c2: ContainerIdView)
    requires
        a.wf(),
        unique_op_stamps(log),
        op_extremum(a, log, c1, false) is Some,
        op_extremum(a, log, c2, false) == op_extremum(a, log, c1, false),
    ensures
        c1 == c2,
{
    let x = op_extremum(a, log, c1, false)->0;
    assert(is_op_extremum(a, log, c1, false, x));
    assert(is_op_extremum(a, log, c2, false, x));
    let i1 = arena_index(a, c1);
    let i2 = arena_index(a, c2);
    assert(log.op_idlps(i1 as ContainerIdx).contains(x));
    assert(log.op_idlps(i2 as ContainerIdx).contains(x));
    let (ca, oa) = choose|ca: int, oa: int|
        0 <= ca < log.changes@.len() && 0 <= oa < log.changes@[ca].ops@.len() && (#[trigger] log.changes@[ca].ops@[oa]).container
            == i1 as ContainerIdx && crate::doc_state::op_idlp(log.changes@[ca], log.changes@[ca].ops@[oa]) == x;
    let (cb, ob) = choose|cb: int, ob: int|
        0 <= cb < log.changes@.len() && 0 <= ob < log.changes@[cb].ops@.len() && (#[trigger] log.changes@[cb].ops@[ob]).container
            == i2 as ContainerIdx && crate::doc_state::op_idlp(log.changes@[cb], log.changes@[cb].ops@[ob]) == x;
    assert(ca == cb && oa == ob);
    assert(i1 == i2);
}

/// Applying decisions each of which leaves `store` as it is leaves it as
/// it is.
pub proof fn lemma_apply_identity(store: Seq<Option<ContainerStateView>>, a: ArenaView, ds: Seq<(ContainerIdx, Seq<char>, ContainerIdView)>)
    requires
        forall|j: int| 0 <= j < ds.len() ==> apply_decision(store, a, #[trigger] ds[j]) == store,
    ensures
        apply_decisions(store, a, ds) == store,
    decreases ds.len(),
{
    if ds.len() > 0 {
        let ds0 = ds.drop_last();
        assert forall|j: int| 0 <= j < ds0.len() implies apply_decision(store, a, #[trigger] ds0[j]) == store by {
            assert(ds0[j] == ds[j]);
        }
        lemma_apply_identity(store, a, ds0);
        assert(apply_decision(store, a, ds[ds.len() - 1]) == store);
    }
}

/// Registering the same identifiers a second time changes nothing: after
/// a registration whose decisions are `ds1`, any decisions `ds2` that a
/// second registration of the same identifiers may take leave the store
/// as the first one left it.
pub proof fn law_register_idempotent(
    d0: DocStateView,
    log: OpLog,
    cids: Seq<ContainerIdView>,
    ds1: Seq<(ContainerIdx, Seq<char>, ContainerIdView)>,
    ds2: Seq<(ContainerIdx, Seq<char>, ContainerIdView)>,
)
    requires
        d0.arena.wf(),
        d0.store.len() <= d0.arena.len(),
        log.wf(),
        side_tables_consistent(d0),
        decisions_ok(d0, log, cids, ds1),
        decisions_ok(DocStateView { store: apply_decisions(d0.store, d0.arena, ds1), ..d0 }, log, cids, ds2),
    ensures
        apply_decisions(apply_decisions(d0.store, d0.arena, ds1), d0.arena, ds2) == apply_decisions(d0.store, d0.arena, ds1),
{
    let a = d0.arena;
    let s0 = d0.store;
    let s1 = apply_decisions(s0, a, ds1);
    let d1 = DocStateView { store: s1, ..d0 };
    assert(keyed(s0)) by {
        assert forall|i: int, c: ContainerIdView|
            #[trigger] children_at(s0, i).contains_key(c) && c.is_mergeable() implies children_at(s0, i)[c] == c->Mergeable_key by {
            assert(map_at(s0, i) is Some);
            assert(map_at(s0, i)->0.children.contains_key(c));
        }
    }
    assert forall|j: int| 0 <= j < ds1.len() implies (#[trigger] ds1[j]).2 is Mergeable && ds1[j].2->Mergeable_key == ds1[j].1 by {
        let p = a.ids[ds1[j].0 as int];
        let w = ds1[j].2;
        assert(is_winner(d0, log, cids, p, ds1[j].1, w));
        assert(candidates(d0, cids, p, ds1[j].1).contains(w));
        if !(cids.contains(w) && in_group(w, p, ds1[j].1)) {
            let m = table_of(d0, p)->0;
            let pi0 = arena_index(a, p);
            assert(m.children.contains_key(w));
            assert(map_at(s0, pi0)->0.children.contains_key(w));
        }
    }
    lemma_apply_decisions(s0, a, ds1);
    // Each decision of the second registration leaves the store as it is.
    assert forall|j2: int| 0 <= j2 < ds2.len() implies apply_decision(s1, a, #[trigger] ds2[j2]) == s1 by {
        let pi = ds2[j2].0 as int;
        let k = ds2[j2].1;
        let w2 = ds2[j2].2;
        let p = a.ids[pi];
        assert(decided(d1, log, cids, p, k) && is_winner(d1, log, cids, p, k, w2));
        crate::lww::lemma_arena_index(a, p, pi);
        assert(table_of(d1, p) == map_at(s1, pi));
        assert(table_of(d0, p) == map_at(s0, pi));
        // The tombstone of the key is unchanged.
        assert(tombstone_of(d1, p, k) == tombstone_of(d0, p, k)) by {
            if map_at(s1, pi) is Some {
                assert(tombs_at(s1, pi) == tombs_at(s0, pi));
            } else {
                assert(map_at(s0, pi) is None);
            }
        }
        let t = tombstone_of(d0, p, k);
        // The key was decided by the first registration.
        assert(decided(d0, log, cids, p, k)) by {
            let c = choose|c: ContainerIdView| #[trigger] candidates(d1, cids, p, k).contains(c) && eligible(a, log, c, tombstone_of(d1, p, k));
            if decides(ds1, pi, k) {
                let j = choose|j: int| 0 <= j < ds1.len() && ds1[j].0 == pi && ds1[j].1 == k;
                assert(decided(d0, log, cids, a.ids[ds1[j].0 as int], ds1[j].1));
            } else if !(cids.contains(c) && in_group(c, p, k)) {
                assert(map_at(s1, pi) is Some);
                assert(mergeable_under(children_at(s1, pi), k).contains(c));
                assert(mergeable_under(children_at(s0, pi), k).contains(c));
                assert(map_at(s0, pi) is Some);
                assert(candidates(d0, cids, p, k).contains(c));
            } else {
                assert(candidates(d0, cids, p, k).contains(c));
            }
        }
        let j1 = choose|j1: int| 0 <= j1 < ds1.len() && a.ids[ds1[j1].0 as int] == p && ds1[j1].1 == k;
        assert(ds1[j1].0 == pi as ContainerIdx) by {
            let q = ds1[j1].0 as int;
            if q != pi {
                if q < pi {
                    assert(a.ids[q] != a.ids[pi]);
                } else {
                    assert(a.ids[pi] != a.ids[q]);
                }
            }
        }
        assert(touches(ds1, pi));
        assert(state_at(s1, pi) is Some);
        if map_at(s1, pi) is Some {
            let m1 = map_at(s1, pi)->0;
            let w1 = ds1[j1].2;
            assert(is_winner(d0, log, cids, p, k, w1));
            assert(mergeable_under(m1.children, k) == Set::<ContainerIdView>::empty().insert(w1));
            assert(m1.children.contains_key(w1) && m1.children[w1] == k);
            assert(mergeable_under(m1.children, k).contains(w1));
            assert(candidates(d1, cids, p, k).contains(w1));
            assert(eligible(a, log, w1, t));
            assert(candidates(d0, cids, p, k).contains(w2)) by {
                if !(cids.contains(w2) && in_group(w2, p, k)) {
                    assert(mergeable_under(m1.children, k).contains(w2));
                }
            }
            assert(idlp_le(op_extremum(a, log, w1, false)->0, op_extremum(a, log, w2, false)->0));
            assert(idlp_le(op_extremum(a, log, w2, false)->0, op_extremum(a, log, w1, false)->0));
            assert(op_extremum(a, log, w2, false) == op_extremum(a, log, w1, false));
            lemma_first_stamp_unique(a, log, w1, w2);
            assert(without_mergeable_under(m1.children, k).insert(w2, k) =~= m1.children) by {
                assert forall|c: ContainerIdView| #[trigger] m1.children.contains_key(c) && c != w1 implies !(c.is_mergeable() && m1.children[c] == k) by {
                    if c.is_mergeable() && m1.children[c] == k {
                        assert(mergeable_under(m1.children, k).contains(c));
                    }
                }
            }
            assert(state_at(s1, pi) == Some(ContainerStateView::Mapping(m1)));
            assert(store_put(s1, pi as ContainerIdx, ContainerStateView::Mapping(m1)) =~= s1);
        } else {
            let st = state_at(s1, pi)->0;
            assert(store_put(s1, pi as ContainerIdx, st) =~= s1);
        }
    }
    lemma_apply_identity(s1, a, ds2);
}

/// A registration only makes a container the mergeable child of a key when
/// operations were applied to it and its last one is later than the key's
/// tombstone: an unmutated child is never registered.
pub proof fn law_registered_children_have_operations(
    d: DocStateView,
    log: OpLog,
    cids: Seq<ContainerIdView>,
    ds: Seq<(ContainerIdx, Seq<char>, ContainerIdView)>,
)
    requires
        decisions_ok(d, log, cids, ds),
    ensures
        forall|j: int|
            0 <= j < ds.len() ==> {
                &&& op_extremum(d.arena, log, (#[trigger] ds[j]).2, false) is Some
                &&& op_extremum(d.arena, log, ds[j].2, true) is Some
                &&& (tombstone_of(d, d.arena.ids[ds[j].0 as int], ds[j].1) matches Some(t) ==> crate::types::idlp_lt(
                    t,
                    op_extremum(d.arena, log, ds[j].2, true)->0,
                ))
            },
{
    assert forall|j: int| 0 <= j < ds.len() implies {
        &&& op_extremum(d.arena, log, (#[trigger] ds[j]).2, false) is Some
        &&& op_extremum(d.arena, log, ds[j].2, true) is Some
        &&& (tombstone_of(d, d.arena.ids[ds[j].0 as int], ds[j].1) matches Some(t) ==> crate::types::idlp_lt(
            t,
            op_extremum(d.arena, log, ds[j].2, true)->0,
        ))
    } by {
        assert(is_winner(d, log, cids, d.arena.ids[ds[j].0 as int], ds[j].1, ds[j].2));
    }
}

/// Registration does not depend on the order of the identifiers, nor on
/// repeats: two lists with the same identifiers allow exactly the same
/// decisions, and so leave the same stores.
pub proof fn law_register_order_irrelevant(
    d: DocStateView,
    log: OpLog,
    cids1: Seq<ContainerIdView>,
    cids2: Seq<ContainerIdView>,
    ds: Seq<(ContainerIdx, Seq<char>, ContainerIdView)>,
)
    requires
        forall|c: ContainerIdView| #[trigger] cids1.contains(c) <==> cids2.contains(c),
    ensures
        decisions_ok(d, log, cids1, ds) == decisions_ok(d, log, cids2, ds),
{
    assert forall|p: ContainerIdView, k: Seq<char>| #[trigger] candidates(d, cids1, p, k) == candidates(d, cids2, p, k) by {
        assert(candidates(d, cids1, p, k) =~= candidates(d, cids2, p, k));
    }
    assert forall|p: ContainerIdView, k: Seq<char>| #[trigger] has_group(cids1, p, k) == has_group(cids2, p, k) by {
        if has_group(cids1, p, k) {
            let i = choose|i: int| 0 <= i < cids1.len() && in_group(#[trigger] cids1[i], p, k);
            assert(cids1.contains(cids1[i]));
            let j = choose|j: int| 0 <= j < cids2.len() && cids2[j] == cids1[i];
            assert(in_group(cids2[j], p, k));
        }
        if has_group(cids2, p, k) {
            let i = choose|i: int| 0 <= i < cids2.len() && in_group(#[trigger] cids2[i], p, k);
            assert(cids2.contains(cids2[i]));
            assert(cids1.contains(cids2[i]));
            let j = choose|j: int| 0 <= j < cids1.len() && cids1[j] == cids2[i];
            assert(in_group(cids1[j], p, k));
        }
    }
    assert forall|p: ContainerIdView, k: Seq<char>|
        #![trigger decided(d, log, cids1, p, k)]
        #![trigger decided(d, log, cids2, p, k)]
        decided(d, log, cids1, p, k) == decided(d, log, cids2, p, k) by {
        assert(candidates(d, cids1, p, k) == candidates(d, cids2, p, k));
        assert(has_group(cids1, p, k) == has_group(cids2, p, k));
    }
    assert forall|p: ContainerIdView, k: Seq<char>, w: ContainerIdView|
        #![trigger is_winner(d, log, cids1, p, k, w)]
        #![trigger is_winner(d, log, cids2, p, k, w)]
        is_winner(d, log, cids1, p, k, w) == is_winner(d, log, cids2, p, k, w) by {
        assert(candidates(d, cids1, p, k) == candidates(d, cids2, p, k));
    }
    if decisions_ok(d, log, cids1, ds) {
        assert forall|p: ContainerIdView, k: Seq<char>| #[trigger] decided(d, log, cids2, p, k) implies exists|j: int|
            0 <= j < ds.len() && d.arena.ids[ds[j].0 as int] == p && ds[j].1 == k by {
            assert(decided(d, log, cids1, p, k));
        }
    }
    if decisions_ok(d, log, cids2, ds) {
        assert forall|p: ContainerIdView, k: Seq<char>| #[trigger] decided(d, log, cids1, p, k) implies exists|j: int|
            0 <= j < ds.len() && d.arena.ids[ds[j].0 as int] == p && ds[j].1 == k by {
            assert(decided(d, log, cids2, p, k));
        }
    }
}

/// Some decision of `ds` makes `c` the winner at slot `i`.
pub open spec fn wins(ds: Seq<(ContainerIdx, Seq<char>, ContainerIdView)>, i: int, c: ContainerIdView) -> bool {
    exists|j: int| 0 <= j < ds.len() && ds[j].0 == i && ds[j].2 == c
}

/// The children of slot `i` after the decisions `ds`, from its children
/// `base` before them: the mergeable children under a decided key leave,
/// and each winner is registered under its key.
pub open spec fn decided_children(base: Map<ContainerIdView, Seq<char>>, ds: Seq<(ContainerIdx, Seq<char>, ContainerIdView)>, i: int) -> Map<
    ContainerIdView,
    Seq<char>,
> {
    Map::new(
        |c: ContainerIdView| (base.contains_key(c) && !(c.is_mergeable() && decides(ds, i, base[c]))) || wins(ds, i, c),
        |c: ContainerIdView|
            if wins(ds, i, c) {
                c->Mergeable_key
            } else {
                base[c]
            },
    )
}

/// The state of slot `i` before any decision is applied to it.
pub open spec fn base_state(store: Seq<Option<ContainerStateView>>, a: ArenaView, i: int) -> ContainerStateView {
    match state_at(store, i) {
        Some(st) => st,
        None => default_state(a.ids[i], i as ContainerIdx),
    }
}

/// The state of slot `i` after the decisions `ds`.
pub open spec fn decided_state(store: Seq<Option<ContainerStateView>>, a: ArenaView, ds: Seq<(ContainerIdx, Seq<char>, ContainerIdView)>, i: int) -> Option<
    ContainerStateView,
> {
    if !touches(ds, i) {
        state_at(store, i)
    } else {
        Some(
            match base_state(store, a, i) {
                ContainerStateView::Mapping(m) => ContainerStateView::Mapping(
                    crate::map_state::MapStateView { children: decided_children(m.children, ds, i), ..m },
                ),
                other => other,
            },
        )
    }
}

/// The length of the store after the decisions `ds`: at least the old one,
/// past every decided slot, and no longer than one of these needs.
pub open spec fn decided_len(store: Seq<Option<ContainerStateView>>, ds: Seq<(ContainerIdx, Seq<char>, ContainerIdView)>, n: nat) -> bool {
    &&& store.len() <= n
    &&& forall|j: int| 0 <= j < ds.len() ==> (#[trigger] ds[j]).0 < n
    &&& (n == store.len() || exists|j: int| 0 <= j < ds.len() && ds[j].0 + 1 == n)
}

/// Applying decisions, in any order, gives every slot its decided state.
pub proof fn lemma_apply_decisions_closed(
    store: Seq<Option<ContainerStateView>>,
    a: ArenaView,
    ds: Seq<(ContainerIdx, Seq<char>, ContainerIdView)>,
)
    requires
        forall|j: int| 0 <= j < ds.len() ==> (#[trigger] ds[j]).2 is Mergeable && ds[j].2->Mergeable_key == ds[j].1,
        forall|j1: int, j2: int| 0 <= j1 < j2 < ds.len() ==> !((#[trigger] ds[j1]).0 == (#[trigger] ds[j2]).0 && ds[j1].1 == ds[j2].1),
        keyed(store),
    ensures
        forall|i: int| #[trigger] state_at(apply_decisions(store, a, ds), i) == decided_state(store, a, ds, i),
        decided_len(store, ds, apply_decisions(store, a, ds).len()),
    decreases ds.len(),
{
    let r = apply_decisions(store, a, ds);
    if ds.len() == 0 {
        assert forall|i: int| #[trigger] state_at(r, i) == decided_state(store, a, ds, i) by {
            assert(!touches(ds, i));
        }
    } else {
        let ds0 = ds.drop_last();
        let dec = ds.last();
        assert(dec == ds[ds.len() - 1]);
        assert forall|j1: int, j2: int| 0 <= j1 < j2 < ds0.len() implies !((#[trigger] ds0[j1]).0 == (#[trigger] ds0[j2]).0 && ds0[j1].1 == ds0[j2].1) by {
            assert(ds0[j1] == ds[j1] && ds0[j2] == ds[j2]);
        }
        assert forall|j: int| 0 <= j < ds0.len() implies (#[trigger] ds0[j]).2 is Mergeable && ds0[j].2->Mergeable_key == ds0[j].1 by {
            assert(ds0[j] == ds[j]);
        }
        lemma_apply_decisions_closed(store, a, ds0);
        let r0 = apply_decisions(store, a, ds0);
        assert(r == apply_decision(r0, a, dec));
        let p = dec.0 as int;
        let k = dec.1;
        let w = dec.2;
        let sv = match state_at(r0, p) {
            Some(x) => x,
            None => default_state(a.ids[p], dec.0),
        };
        let s2 = match sv {
            ContainerStateView::Mapping(m) => ContainerStateView::Mapping(
                crate::map_state::MapStateView { children: without_mergeable_under(m.children, k).insert(w, k), ..m },
            ),
            other => other,
        };
        assert(r == store_put(r0, dec.0, s2));
        assert forall|x: int| #[trigger] touches(ds, x) <==> touches(ds0, x) || x == p by {
            if touches(ds, x) {
                let j = choose|j: int| 0 <= j < ds.len() && ds[j].0 == x;
                if j < ds0.len() {
                    assert(ds0[j] == ds[j]);
                }
            }
            if touches(ds0, x) {
                let j = choose|j: int| 0 <= j < ds0.len() && ds0[j].0 == x;
                assert(ds[j] == ds0[j]);
            }
        }
        assert forall|x: int, kk: Seq<char>| #[trigger] decides(ds, x, kk) <==> decides(ds0, x, kk) || (x == p && kk == k) by {
            if decides(ds, x, kk) {
                let j = choose|j: int| 0 <= j < ds.len() && ds[j].0 == x && ds[j].1 == kk;
                if j < ds0.len() {
                    assert(ds0[j] == ds[j]);
                }
            }
            if decides(ds0, x, kk) {
                let j = choose|j: int| 0 <= j < ds0.len() && ds0[j].0 == x && ds0[j].1 == kk;
                assert(ds[j] == ds0[j]);
            }
        }
        assert forall|x: int, c: ContainerIdView| #[trigger] wins(ds, x, c) <==> wins(ds0, x, c) || (x == p && c == w) by {
            if wins(ds, x, c) {
                let j = choose|j: int| 0 <= j < ds.len() && ds[j].0 == x && ds[j].2 == c;
                if j < ds0.len() {
                    assert(ds0[j] == ds[j]);
                }
            }
            if wins(ds0, x, c) {
                let j = choose|j: int| 0 <= j < ds0.len() && ds0[j].0 == x && ds0[j].2 == c;
                assert(ds[j] == ds0[j]);
            }
        }
        // A winner of an earlier decision at `p` hangs under another key.
        assert forall|c: ContainerIdView| #[trigger] wins(ds0, p, c) implies c is Mergeable && c->Mergeable_key != k by {
            let j = choose|j: int| 0 <= j < ds0.len() && ds0[j].0 == p && ds0[j].2 == c;
            assert(ds0[j] == ds[j]);
            assert(!(ds[j].0 == ds[ds.len() - 1].0 && ds[j].1 == ds[ds.len() - 1].1));
        }
        assert(!decides(ds0, p, k)) by {
            if decides(ds0, p, k) {
                let j = choose|j: int| 0 <= j < ds0.len() && ds0[j].0 == p && ds0[j].1 == k;
                assert(ds0[j] == ds[j]);
                assert(!(ds[j].0 == ds[ds.len() - 1].0 && ds[j].1 == ds[ds.len() - 1].1));
            }
        }
        assert forall|i: int| #[trigger] state_at(r, i) == decided_state(store, a, ds, i) by {
            if i != p {
                assert(state_at(r, i) == state_at(r0, i));
                if touches(ds, i) {
                    assert(touches(ds0, i));
                    match base_state(store, a, i) {
                        ContainerStateView::Mapping(m) => {
                            assert(decided_children(m.children, ds, i) =~= decided_children(m.children, ds0, i));
                        },
                        _ => {},
                    }
                }
            } else {
                assert(state_at(r, p) == Some(s2));
                assert(touches(ds, p));
                let b = base_state(store, a, p);
                // the state before this decision is the decided state over `ds0`
                if touches(ds0, p) {
                    assert(state_at(r0, p) == decided_state(store, a, ds0, p));
                } else {
                    assert(state_at(r0, p) == state_at(store, p));
                }
                match b {
                    ContainerStateView::Mapping(m) => {
                        let c0 = if touches(ds0, p) {
                            decided_children(m.children, ds0, p)
                        } else {
                            m.children
                        };
                        assert(sv == ContainerStateView::Mapping(crate::map_state::MapStateView { children: c0, ..m }));
                        let target = decided_children(m.children, ds, p);
                        let got = without_mergeable_under(c0, k).insert(w, k);
                        // the base children hang under their own keys
                        assert forall|c: ContainerIdView| #[trigger] m.children.contains_key(c) && c.is_mergeable() implies m.children[c] == c->Mergeable_key by {
                            if state_at(store, p) is Some {
                                assert(map_at(store, p) == Some(m));
                                assert(children_at(store, p).contains_key(c));
                            } else {
                                assert(m.children == Map::<ContainerIdView, Seq<char>>::empty());
                            }
                        }
                        assert forall|c: ContainerIdView| #[trigger] got.contains_key(c) <==> target.contains_key(c) by {
                            if c != w {
                                if wins(ds0, p, c) {
                                    assert(c0.contains_key(c) || !touches(ds0, p));
                                }
                                if touches(ds0, p) {
                                    if m.children.contains_key(c) && c.is_mergeable() && m.children[c] == k {
                                        assert(decides(ds, p, m.children[c]));
                                    }
                                } else {
                                    assert(!wins(ds0, p, c));
                                    if m.children.contains_key(c) && c.is_mergeable() && decides(ds, p, m.children[c]) {
                                        assert(m.children[c] == k) by {
                                            if m.children[c] != k {
                                                assert(decides(ds0, p, m.children[c]));
                                                let j = choose|j: int| 0 <= j < ds0.len() && ds0[j].0 == p && ds0[j].1 == m.children[c];
                                                assert(touches(ds0, p));
                                            }
                                        }
                                    }
                                }
                            }
                        }
                        assert forall|c: ContainerIdView| #[trigger] got.contains_key(c) implies got[c] == target[c] by {
                            if c != w {
                                if touches(ds0, p) {
                                    assert(c0.contains_key(c));
                                } else {
                                    assert(!wins(ds0, p, c));
                                }
                            }
                        }
                        assert(got =~= target);
                    },
                    _ => {
                        if touches(ds0, p) {
                            assert(state_at(r0, p) == Some(b));
                        }
                    },
                }
            }
        }
        // The length.
        let n0 = r0.len();
        assert(decided_len(store, ds, r.len())) by {
            assert forall|j: int| 0 <= j < ds.len() implies (#[trigger] ds[j]).0 < r.len() by {
                if j < ds0.len() {
                    assert(ds0[j] == ds[j]);
                }
            }
            if r.len() != store.len() {
                if p < n0 {
                    assert(r.len() == n0);
                    if n0 != store.len() {
                        let j = choose|j: int| 0 <= j < ds0.len() && ds0[j].0 + 1 == n0;
                        assert(ds[j] == ds0[j]);
                    }
                } else {
                    assert(ds[ds.len() - 1].0 + 1 == r.len());
                }
            }
        }
    }
}

/// Two lengths that both fit the same decided slots are equal.
proof fn lemma_decided_len_unique(
    store: Seq<Option<ContainerStateView>>,
    ds1: Seq<(ContainerIdx, Seq<char>, ContainerIdView)>,
    ds2: Seq<(ContainerIdx, Seq<char>, ContainerIdView)>,
    n1: nat,
    n2: nat,
)
    requires
        decided_len(store, ds1, n1),
        decided_len(store, ds2, n2),
        forall|i: int| #![trigger touches(ds1, i)] #![trigger touches(ds2, i)] touches(ds1, i) <==> touches(ds2, i),
    ensures
        n1 == n2,
{
    if n1 != store.len() {
        let j = choose|j: int| 0 <= j < ds1.len() && ds1[j].0 + 1 == n1;
        assert(touches(ds1, ds1[j].0 as int));
        assert(touches(ds2, ds1[j].0 as int));
        let j2 = choose|j2: int| 0 <= j2 < ds2.len() && ds2[j2].0 == ds1[j].0;
        assert(ds2[j2].0 < n2);
    }
    if n2 != store.len() {
        let j = choose|j: int| 0 <= j < ds2.len() && ds2[j].0 + 1 == n2;
        assert(touches(ds2, ds2[j].0 as int));
        assert(touches(ds1, ds2[j].0 as int));
        let j1 = choose|j1: int| 0 <= j1 < ds1.len() && ds1[j1].0 == ds2[j].0;
        assert(ds1[j1].0 < n1);
    }
}

/// The winner of each decision hangs under the decision's key.
proof fn lemma_winners_keyed(d: DocStateView, log: OpLog, cids: Seq<ContainerIdView>, ds: Seq<(ContainerIdx, Seq<char>, ContainerIdView)>)
    requires
        side_tables_consistent(d),
        decisions_ok(d, log, cids, ds),
    ensures
        forall|j: int| 0 <= j < ds.len() ==> (#[trigger] ds[j]).2 is Mergeable && ds[j].2->Mergeable_key == ds[j].1,
        keyed(d.store),
{
    let a = d.arena;
    assert forall|i: int, c: ContainerIdView|
        #[trigger] children_at(d.store, i).contains_key(c) && c.is_mergeable() implies children_at(d.store, i)[c] == c->Mergeable_key by {
        assert(map_at(d.store, i) is Some);
        assert(map_at(d.store, i)->0.children.contains_key(c));
    }
    assert forall|j: int| 0 <= j < ds.len() implies (#[trigger] ds[j]).2 is Mergeable && ds[j].2->Mergeable_key == ds[j].1 by {
        let p = a.ids[ds[j].0 as int];
        let w = ds[j].2;
        assert(is_winner(d, log, cids, p, ds[j].1, w));
        assert(candidates(d, cids, p, ds[j].1).contains(w));
        if !(cids.contains(w) && in_group(w, p, ds[j].1)) {
            let m = table_of(d, p)->0;
            let pi0 = arena_index(a, p);
            assert(m.children.contains_key(w));
            assert(map_at(d.store, pi0)->0.children.contains_key(w));
        }
    }
}

/// A key decided at slot `x` by one admissible decision list is decided
/// there by any other.
proof fn lemma_same_decided(
    d: DocStateView,
    log: OpLog,
    cids: Seq<ContainerIdView>,
    ds1: Seq<(ContainerIdx, Seq<char>, ContainerIdView)>,
    ds2: Seq<(ContainerIdx, Seq<char>, ContainerIdView)>,
    x: int,
    k: Seq<char>,
)
    requires
        d.arena.wf(),
        decisions_ok(d, log, cids, ds1),
        decisions_ok(d, log, cids, ds2),
        decides(ds1, x, k),
    ensures
        decides(ds2, x, k),
{
    let a = d.arena;
    let j = choose|j: int| 0 <= j < ds1.len() && ds1[j].0 == x && ds1[j].1 == k;
    assert(decided(d, log, cids, a.ids[ds1[j].0 as int], ds1[j].1));
    let j2 = choose|j2: int| 0 <= j2 < ds2.len() && a.ids[ds2[j2].0 as int] == a.ids[x] && ds2[j2].1 == k;
    assert(ds2[j2].0 == x) by {
        let q = ds2[j2].0 as int;
        if q != x {
            if q < x { assert(a.ids[q] != a.ids[x]); } else { assert(a.ids[x] != a.ids[q]); }
        }
    }
}

/// Two admissible decision lists touch the same slots, decide the same keys
/// and choose the same winners.
proof fn lemma_same_decisions(
    d: DocStateView,
    log: OpLog,
    cids: Seq<ContainerIdView>,
    ds1: Seq<(ContainerIdx, Seq<char>, ContainerIdView)>,
    ds2: Seq<(ContainerIdx, Seq<char>, ContainerIdView)>,
)
    requires
        d.arena.wf(),
        log.wf(),
        decisions_ok(d, log, cids, ds1),
        decisions_ok(d, log, cids, ds2),
    ensures
        forall|x: int, k: Seq<char>| #[trigger] decides(ds1, x, k) <==> decides(ds2, x, k),
        forall|x: int| #![trigger touches(ds1, x)] #![trigger touches(ds2, x)] touches(ds1, x) <==> touches(ds2, x),
        forall|x: int, c: ContainerIdView| #[trigger] wins(ds1, x, c) <==> wins(ds2, x, c),
{
    assert forall|x: int, k: Seq<char>| #[trigger] decides(ds1, x, k) <==> decides(ds2, x, k) by {
        if decides(ds1, x, k) {
            lemma_same_decided(d, log, cids, ds1, ds2, x, k);
        }
        if decides(ds2, x, k) {
            lemma_same_decided(d, log, cids, ds2, ds1, x, k);
        }
    }
    assert forall|x: int| #![trigger touches(ds1, x)] #![trigger touches(ds2, x)] touches(ds1, x) <==> touches(ds2, x) by {
        if touches(ds1, x) {
            let j = choose|j: int| 0 <= j < ds1.len() && ds1[j].0 == x;
            assert(decides(ds1, x, ds1[j].1));
            lemma_same_decided(d, log, cids, ds1, ds2, x, ds1[j].1);
        }
        if touches(ds2, x) {
            let j = choose|j: int| 0 <= j < ds2.len() && ds2[j].0 == x;
            assert(decides(ds2, x, ds2[j].1));
            lemma_same_decided(d, log, cids, ds2, ds1, x, ds2[j].1);
        }
    }
    assert forall|x: int, c: ContainerIdView| #[trigger] wins(ds1, x, c) <==> wins(ds2, x, c) by {
        if wins(ds1, x, c) {
            lemma_same_winner(d, log, cids, ds1, ds2, x, c);
        }
        if wins(ds2, x, c) {
            lemma_same_winner(d, log, cids, ds2, ds1, x, c);
        }
    }
}

/// A registration's outcome does not depend on the order in which it takes
/// its decisions: any two decision lists it may take leave the same store.
pub proof fn law_register_outcome_unique(
    d: DocStateView,
    log: OpLog,
    cids: Seq<ContainerIdView>,
    ds1: Seq<(ContainerIdx, Seq<char>, ContainerIdView)>,
    ds2: Seq<(ContainerIdx, Seq<char>, ContainerIdView)>,
)
    requires
        d.arena.wf(),
        d.store.len() <= d.arena.len(),
        log.wf(),
        side_tables_consistent(d),
        decisions_ok(d, log, cids, ds1),
        decisions_ok(d, log, cids, ds2),
    ensures
        apply_decisions(d.store, d.arena, ds1) == apply_decisions(d.store, d.arena, ds2),
{
    let a = d.arena;
    lemma_winners_keyed(d, log, cids, ds1);
    lemma_winners_keyed(d, log, cids, ds2);
    lemma_apply_decisions_closed(d.store, a, ds1);
    lemma_apply_decisions_closed(d.store, a, ds2);
    lemma_same_decisions(d, log, cids, ds1, ds2);
    let r1 = apply_decisions(d.store, a, ds1);
    let r2 = apply_decisions(d.store, a, ds2);
    assert forall|i: int| #[trigger] state_at(r1, i) == state_at(r2, i) by {
        if touches(ds1, i) {
            assert(touches(ds2, i));
            match base_state(d.store, a, i) {
                ContainerStateView::Mapping(m) => {
                    assert(decided_children(m.children, ds1, i) =~= decided_children(m.children, ds2, i));
                },
                _ => {},
            }
        } else {
            assert(!touches(ds2, i));
        }
    }
    lemma_decided_len_unique(d.store, ds1, ds2, r1.len(), r2.len());
    assert(r1 =~= r2) by {
        assert forall|i: int| 0 <= i < r1.len() implies r1[i] == r2[i] by {
            assert(state_at(r1, i) == state_at(r2, i));
        }
    }
}

/// A winner at slot `x` in one admissible decision list wins there in any
/// other.
proof fn lemma_same_winner(
    d: DocStateView,
    log: OpLog,
    cids: Seq<ContainerIdView>,
    ds1: Seq<(ContainerIdx, Seq<char>, ContainerIdView)>,
    ds2: Seq<(ContainerIdx, Seq<char>, ContainerIdView)>,
    x: int,
    c: ContainerIdView,
)
    requires
        d.arena.wf(),
        log.wf(),
        decisions_ok(d, log, cids, ds1),
        decisions_ok(d, log, cids, ds2),
        wins(ds1, x, c),
    ensures
        wins(ds2, x, c),
{
    let a = d.arena;
    let j1 = choose|j: int| 0 <= j < ds1.len() && ds1[j].0 == x && ds1[j].2 == c;
    let k = ds1[j1].1;
    let p = a.ids[x];
    assert(decided(d, log, cids, p, k) && is_winner(d, log, cids, p, k, c));
    let j2 = choose|j2: int| 0 <= j2 < ds2.len() && a.ids[ds2[j2].0 as int] == p && ds2[j2].1 == k;
    assert(ds2[j2].0 == x) by {
        let q = ds2[j2].0 as int;
        if q != x {
            if q < x { assert(a.ids[q] != a.ids[x]); } else { assert(a.ids[x] != a.ids[q]); }
        }
    }
    let c2 = ds2[j2].2;
    assert(is_winner(d, log, cids, p, k, c2));
    let t = tombstone_of(d, p, k);
    assert(candidates(d, cids, p, k).contains(c) && eligible(a, log, c, t));
    assert(candidates(d, cids, p, k).contains(c2) && eligible(a, log, c2, t));
    assert(idlp_le(op_extremum(a, log, c, false)->0, op_extremum(a, log, c2, false)->0));
    assert(idlp_le(op_extremum(a, log, c2, false)->0, op_extremum(a, log, c, false)->0));
    lemma_first_stamp_unique(a, log, c, c2);
}

/// Registration converges: registering the same identifiers, in any order
/// and with any repeats, against the same operations leaves the same
/// document state, so peers that see the same operations agree on every
/// winner.
pub proof fn law_register_converges(
    d: DocStateView,
    log: OpLog,
    cids1: Seq<ContainerIdView>,
    cids2: Seq<ContainerIdView>,
    d1: DocStateView,
    d2: DocStateView,
)
    requires
        d.arena.wf(),
        d.store.len() <= d.arena.len(),
        log.wf(),
        side_tables_consistent(d),
        forall|c: ContainerIdView| #[trigger] cids1.contains(c) <==> cids2.contains(c),
        registered(d, log, cids1, d1),
        registered(d, log, cids2, d2),
    ensures
        d1 == d2,
{
    let ds1 = choose|ds: Seq<(ContainerIdx, Seq<char>, ContainerIdView)>|
        decisions_ok(d, log, cids1, ds) && d1.store == apply_decisions(d.store, d.arena, ds);
    let ds2 = choose|ds: Seq<(ContainerIdx, Seq<char>, ContainerIdView)>|
        decisions_ok(d, log, cids2, ds) && d2.store == apply_decisions(d.store, d.arena, ds);
    law_register_order_irrelevant(d, log, cids1, cids2, ds2);
    law_register_outcome_unique(d, log, cids1, ds1, ds2);
    assert(d1 == d2);
}

/// Registration takes into account the mergeable children already
/// registered, not only those it is given: after registering `cids`, when
/// some identifier among them hangs under key `k` of the map at `pi`, a
/// mergeable child stays under `k` whose first operation is not earlier
/// than that of any competitor (given, or registered under `k` before)
/// that has operations whose last one is later than the key's tombstone.
/// That child is itself such a competitor.
pub proof fn law_register_keeps_latest_registered(
    d: DocStateView,
    log: OpLog,
    cids: Seq<ContainerIdView>,
    d2: DocStateView,
    pi: int,
    k: Seq<char>,
    m: crate::map_state::MapStateView,
    c: ContainerIdView,
)
    requires
        d.arena.wf(),
        d.store.len() <= d.arena.len(),
        log.wf(),
        side_tables_consistent(d),
        registered(d, log, cids, d2),
        0 <= pi < d.arena.len(),
        exists|i: int| 0 <= i < cids.len() && (#[trigger] cids[i]) is Mergeable && *cids[i]->Mergeable_parent == d.arena.ids[pi]
            && cids[i]->Mergeable_key == k,
        map_at(d.store, pi) == Some(m),
        (m.children.contains_key(c) && c is Mergeable && m.children[c] == k) || (cids.contains(c) && c is Mergeable
            && *c->Mergeable_parent == d.arena.ids[pi] && c->Mergeable_key == k),
        op_extremum(d.arena, log, c, false) is Some,
        op_extremum(d.arena, log, c, true) is Some,
        m.tombstones.contains_key(k) ==> idlp_lt(m.tombstones[k], op_extremum(d.arena, log, c, true)->0),
    ensures
        exists|w: ContainerIdView|
            #![trigger map_at(d2.store, pi)->0.children.contains_key(w)]
            map_at(d2.store, pi) is Some && map_at(d2.store, pi)->0.children.contains_key(w) && w is Mergeable
                && map_at(d2.store, pi)->0.children[w] == k && op_extremum(d.arena, log, w, false) is Some && idlp_le(
                op_extremum(d.arena, log, c, false)->0,
                op_extremum(d.arena, log, w, false)->0,
            ) && ((m.children.contains_key(w) && m.children[w] == k) || cids.contains(w)) && (op_extremum(d.arena, log, w, true) matches Some(x) && (m.tombstones.contains_key(k) ==> idlp_lt(m.tombstones[k], x))),
{
    let a = d.arena;
    let p = a.ids[pi];
    crate::lww::lemma_arena_index(a, p, pi);
    assert(table_of(d, p) == Some(m));
    let i0 = choose|i: int| 0 <= i < cids.len() && (#[trigger] cids[i]) is Mergeable && *cids[i]->Mergeable_parent == p
        && cids[i]->Mergeable_key == k;
    assert(in_group(cids[i0], p, k));
    assert(has_group(cids, p, k));
    if m.children.contains_key(c) && c is Mergeable && m.children[c] == k {
        assert(mergeable_under(m.children, k).contains(c));
    } else {
        assert(in_group(c, p, k));
    }
    assert(candidates(d, cids, p, k).contains(c));
    assert(eligible(a, log, c, tombstone_of(d, p, k)));
    assert(decided(d, log, cids, p, k));
    let ds = choose|ds: Seq<(ContainerIdx, Seq<char>, ContainerIdView)>|
        decisions_ok(d, log, cids, ds) && d2.store == apply_decisions(d.store, a, ds);
    let j = choose|j: int| 0 <= j < ds.len() && a.ids[ds[j].0 as int] == p && ds[j].1 == k;
    assert(ds[j].0 == pi) by {
        let q = ds[j].0 as int;
        if q != pi {
            if q < pi { assert(a.ids[q] != a.ids[pi]); } else { assert(a.ids[pi] != a.ids[q]); }
        }
    }
    let w = ds[j].2;
    assert(is_winner(d, log, cids, p, k, w));
    assert(idlp_le(op_extremum(a, log, c, false)->0, op_extremum(a, log, w, false)->0));
    lemma_winners_keyed(d, log, cids, ds);
    assert(ds[j].2 is Mergeable && ds[j].2->Mergeable_key == ds[j].1);
    lemma_apply_decisions_closed(d.store, a, ds);
    assert(touches(ds, pi));
    assert(wins(ds, pi, w));
    assert(state_at(d2.store, pi) == decided_state(d.store, a, ds, pi));
    assert(base_state(d.store, a, pi) == ContainerStateView::Mapping(m));
    let ch = decided_children(m.children, ds, pi);
    assert(ch.contains_key(w) && ch[w] == k);
    assert(map_at(d2.store, pi)->0.children == ch);
    assert(map_at(d2.store, pi)->0.children.contains_key(w));
    assert(candidates(d, cids, p, k).contains(w));
    assert(eligible(a, log, w, tombstone_of(d, p, k)));
}

} // verus!

//! Properties that hold across the operations of a map state.

use vstd::prelude::*;
use crate::child_table::{mergeable_under, without_mergeable_under};
use crate::map_state::{apply_all, apply_entry, insert_spec, opt_register_view, remove_spec, report_entry, tombstone_after, MapStateView, ResolvedMapValueView};
use crate::value::MapValue;
use crate::types::{idlp_lt, ContainerIdView, IdLp};
use crate::value::{map_value_gt, MapValueView};

verus! {

/// A read after a write gives back the written register.
pub proof fn law_read_after_write(s: MapStateView, k: Seq<char>, v: MapValueView)
    ensures
        insert_spec(s, k, v).map.contains_key(k),
        insert_spec(s, k, v).map[k] == v,
        forall|k2: Seq<char>| k2 != k ==> #[trigger] insert_spec(s, k, v).map.contains_key(k2) == s.map.contains_key(k2)
            && (s.map.contains_key(k2) ==> insert_spec(s, k, v).map[k2] == s.map[k2]),
{
}

/// A read after forgetting a key finds nothing; other keys are untouched.
pub proof fn law_read_after_remove(s: MapStateView, k: Seq<char>)
    ensures
        !remove_spec(s, k).map.contains_key(k),
        forall|k2: Seq<char>| k2 != k ==> #[trigger] remove_spec(s, k).map.contains_key(k2) == s.map.contains_key(k2)
            && (s.map.contains_key(k2) ==> remove_spec(s, k).map[k2] == s.map[k2]),
{
}

/// Importing two writes converges: whatever order they arrive in, the
/// registers end up the same, as long as the writes are distinct (they touch
/// different keys or carry different stamps).
pub proof fn law_import_order_irrelevant(
    s: MapStateView,
    k1: Seq<char>,
    v1: MapValueView,
    k2: Seq<char>,
    v2: MapValueView,
)
    requires
        k1 != k2 || v1.idlp() != v2.idlp(),
    ensures
        apply_entry(apply_entry(s, k1, Some(v1), false), k2, Some(v2), false).map
            == apply_entry(apply_entry(s, k2, Some(v2), false), k1, Some(v1), false).map,
{
    let a = apply_entry(apply_entry(s, k1, Some(v1), false), k2, Some(v2), false).map;
    let b = apply_entry(apply_entry(s, k2, Some(v2), false), k1, Some(v1), false).map;
    if k1 == k2 {
        assert(v1.idlp() != v2.idlp());
        assert(a =~= b);
    } else {
        assert(a =~= b);
    }
}

/// Importing the same write twice changes nothing the second time.
pub proof fn law_import_idempotent(s: MapStateView, k: Seq<char>, v: MapValueView)
    ensures
        apply_entry(apply_entry(s, k, Some(v), false), k, Some(v), false).map == apply_entry(
            s,
            k,
            Some(v),
            false,
        ).map,
{
    let once = apply_entry(s, k, Some(v), false);
    assert(!map_value_gt(v, v));
    if once.map.contains_key(k) && map_value_gt(once.map[k], v) {
    } else {
        assert(apply_entry(once, k, Some(v), false).map =~= once.map);
    }
}

/// After an import of a write the key holds the later of the old register
/// and the write.
pub proof fn law_import_keeps_latest(s: MapStateView, k: Seq<char>, v: MapValueView)
    ensures
        apply_entry(s, k, Some(v), false).map.contains_key(k),
        s.map.contains_key(k) && map_value_gt(s.map[k], v) ==> apply_entry(s, k, Some(v), false).map[k]
            == s.map[k],
        !(s.map.contains_key(k) && map_value_gt(s.map[k], v)) ==> apply_entry(s, k, Some(v), false).map[k] == v,
{
}

/// A tombstone only moves forward: it ends at the later of the old
/// tombstone and the new delete.
pub proof fn law_tombstone_monotonic(t: Map<Seq<char>, IdLp>, k: Seq<char>, idlp: IdLp)
    ensures
        tombstone_after(t, k, idlp).contains_key(k),
        !idlp_lt(tombstone_after(t, k, idlp)[k], idlp),
        t.contains_key(k) ==> !idlp_lt(tombstone_after(t, k, idlp)[k], t[k]),
        forall|k2: Seq<char>| k2 != k ==> #[trigger] tombstone_after(t, k, idlp).contains_key(k2) == t.contains_key(k2)
            && (t.contains_key(k2) ==> tombstone_after(t, k, idlp)[k2] == t[k2]),
{
}

/// Recording two deletes gives the same tombstones in either order.
pub proof fn law_tombstones_commute(t: Map<Seq<char>, IdLp>, k1: Seq<char>, i1: IdLp, k2: Seq<char>, i2: IdLp)
    ensures
        tombstone_after(tombstone_after(t, k1, i1), k2, i2) == tombstone_after(tombstone_after(t, k2, i2), k1, i1),
{
    let a = tombstone_after(tombstone_after(t, k1, i1), k2, i2);
    let b = tombstone_after(tombstone_after(t, k2, i2), k1, i1);
    assert(a =~= b);
}

/// After replacing the mergeable child of a key, it is the only mergeable
/// child under that key, and nothing under other keys changed.
pub proof fn law_single_mergeable_child_per_key(
    children: Map<ContainerIdView, Seq<char>>,
    key: Seq<char>,
    id: ContainerIdView,
)
    requires
        id.is_mergeable(),
    ensures
        mergeable_under(without_mergeable_under(children, key).insert(id, key), key) == Set::<
            ContainerIdView,
        >::empty().insert(id),
        forall|c: ContainerIdView|
            c != id && !(#[trigger] children.contains_key(c) && c.is_mergeable() && children[c] == key)
                ==> without_mergeable_under(children, key).insert(id, key).contains_key(c)
                == children.contains_key(c),
{
    let m = without_mergeable_under(children, key).insert(id, key);
    assert(mergeable_under(m, key) =~= Set::<ContainerIdView>::empty().insert(id));
}

/// A written container value stays registered under its key; the container
/// the key held before is unregistered when it is another one.
pub proof fn law_written_container_stays_recorded(s: MapStateView, k: Seq<char>, v: MapValueView)
    ensures
        v.container() matches Some(c) ==> insert_spec(s, k, v).children.contains_key(c) && insert_spec(s, k, v).children[c] == k,
        s.map.contains_key(k) && s.map[k].container() is Some && v.container() != s.map[k].container() ==> !insert_spec(
            s,
            k,
            v,
        ).children.contains_key(s.map[k].container()->0),
{
}

/// Every entry of the diff `d` writes a register.
pub open spec fn all_writes(d: Seq<(String, Option<MapValue>)>) -> bool {
    forall|i: int| 0 <= i < d.len() ==> (#[trigger] d[i]).1 is Some
}

/// The diff `d` writes register `v` to key `k`.
pub open spec fn offered(d: Seq<(String, Option<MapValue>)>, k: Seq<char>, v: MapValueView) -> bool {
    exists|i: int| 0 <= i < d.len() && (#[trigger] d[i]).0@ == k && opt_register_view(d[i].1) == Some(v)
}

/// `v` competes for key `k`: it is the register `m` holds or one that `d`
/// writes.
pub open spec fn competes(m: Map<Seq<char>, MapValueView>, d: Seq<(String, Option<MapValue>)>, k: Seq<char>, v: MapValueView) -> bool {
    (m.contains_key(k) && m[k] == v) || offered(d, k, v)
}

/// Importing the writes `d` leaves every key with a competing register that
/// no competitor was written after.
pub proof fn lemma_import_is_latest(s: MapStateView, d: Seq<(String, Option<MapValue>)>)
    requires
        all_writes(d),
    ensures
        forall|k: Seq<char>|
            #[trigger] apply_all(s, d, false).map.contains_key(k) <==> s.map.contains_key(k) || exists|v: MapValueView|
                offered(d, k, v),
        forall|k: Seq<char>|
            #[trigger] apply_all(s, d, false).map.contains_key(k) ==> competes(s.map, d, k, apply_all(s, d, false).map[k]),
        forall|k: Seq<char>, v: MapValueView|
            #[trigger] competes(s.map, d, k, v) ==> apply_all(s, d, false).map.contains_key(k) && !map_value_gt(
                v,
                apply_all(s, d, false).map[k],
            ),
    decreases d.len(),
{
    if d.len() > 0 {
        let d0 = d.drop_last();
        assert forall|i: int| 0 <= i < d0.len() implies (#[trigger] d0[i]).1 is Some by {
            assert(d0[i] == d[i]);
        }
        lemma_import_is_latest(s, d0);
        let r0 = apply_all(s, d0, false);
        let r = apply_all(s, d, false);
        let k1 = d.last().0@;
        assert(d[d.len() - 1].1 is Some);
        let v1 = opt_register_view(d.last().1)->0;
        assert(offered(d, k1, v1)) by {
            assert(d[d.len() - 1].0@ == k1);
        }
        assert forall|k: Seq<char>, v: MapValueView| #[trigger] offered(d, k, v) <==> offered(d0, k, v) || (k == k1 && v == v1) by {
            if offered(d, k, v) {
                let i = choose|i: int| 0 <= i < d.len() && (#[trigger] d[i]).0@ == k && opt_register_view(d[i].1) == Some(v);
                if i < d0.len() {
                    assert(d0[i] == d[i]);
                }
            }
            if offered(d0, k, v) {
                let i = choose|i: int| 0 <= i < d0.len() && (#[trigger] d0[i]).0@ == k && opt_register_view(d0[i].1) == Some(v);
                assert(d[i] == d0[i]);
            }
        }
        assert forall|k: Seq<char>|
            #[trigger] r.map.contains_key(k) <==> s.map.contains_key(k) || exists|v: MapValueView| offered(d, k, v) by {
            if exists|v: MapValueView| offered(d0, k, v) {
                let v = choose|v: MapValueView| offered(d0, k, v);
                assert(offered(d, k, v));
            }
            if exists|v: MapValueView| offered(d, k, v) {
                let v = choose|v: MapValueView| offered(d, k, v);
                if k != k1 {
                    assert(offered(d0, k, v));
                }
            }
        }
        assert forall|k: Seq<char>| #[trigger] r.map.contains_key(k) implies competes(s.map, d, k, r.map[k]) by {
            if k != k1 {
                assert(r.map[k] == r0.map[k]);
                assert(competes(s.map, d0, k, r0.map[k]));
                if offered(d0, k, r0.map[k]) {
                    assert(offered(d, k, r0.map[k]));
                }
            } else if r.map[k] != v1 {
                assert(r.map[k] == r0.map[k]);
                assert(competes(s.map, d0, k, r0.map[k]));
                if offered(d0, k, r0.map[k]) {
                    assert(offered(d, k, r0.map[k]));
                }
            }
        }
        assert forall|k: Seq<char>, v: MapValueView| #[trigger] competes(s.map, d, k, v) implies r.map.contains_key(k) && !map_value_gt(v, r.map[k]) by {
            if k != k1 {
                assert(competes(s.map, d0, k, v));
                assert(r.map[k] == r0.map[k]);
            } else {
                if competes(s.map, d0, k, v) {
                    assert(r0.map.contains_key(k) && !map_value_gt(v, r0.map[k]));
                }
            }
        }
    }
}

/// Two importers that agree on the stamp of a write agree on the write.
pub open spec fn stamps_identify(m: Map<Seq<char>, MapValueView>, d1: Seq<(String, Option<MapValue>)>, d2: Seq<(String, Option<MapValue>)>) -> bool {
    forall|k: Seq<char>, x: MapValueView, y: MapValueView|
        #![trigger competes(m, d1, k, x), competes(m, d1, k, y)]
        #![trigger competes(m, d1, k, x), offered(d2, k, y)]
        #![trigger offered(d2, k, x), offered(d2, k, y)]
        (competes(m, d1, k, x) || offered(d2, k, x)) && (competes(m, d1, k, y) || offered(d2, k, y)) && x.idlp() == y.idlp()
            ==> x == y
}

/// Importing two diffs of writes gives the same registers in either order:
/// every key ends with the latest register written to it. Writes with the
/// same stamp are the same write.
pub proof fn law_import_diffs_commute(s: MapStateView, d1: Seq<(String, Option<MapValue>)>, d2: Seq<(String, Option<MapValue>)>)
    requires
        all_writes(d1),
        all_writes(d2),
        stamps_identify(s.map, d1, d2),
    ensures
        apply_all(apply_all(s, d1, false), d2, false).map == apply_all(apply_all(s, d2, false), d1, false).map,
{
    let r1 = apply_all(s, d1, false);
    let r12 = apply_all(r1, d2, false);
    let r2 = apply_all(s, d2, false);
    let r21 = apply_all(r2, d1, false);
    lemma_import_is_latest(s, d1);
    lemma_import_is_latest(r1, d2);
    lemma_import_is_latest(s, d2);
    lemma_import_is_latest(r2, d1);
    assert forall|k: Seq<char>| #[trigger] r12.map.contains_key(k) <==> r21.map.contains_key(k) by {
        if exists|v: MapValueView| offered(d1, k, v) {
            let v = choose|v: MapValueView| offered(d1, k, v);
            assert(competes(s.map, d1, k, v));
            assert(competes(r2.map, d1, k, v));
        }
        if exists|v: MapValueView| offered(d2, k, v) {
            let v = choose|v: MapValueView| offered(d2, k, v);
            assert(competes(s.map, d2, k, v));
            assert(competes(r1.map, d2, k, v));
        }
    }
    assert forall|k: Seq<char>| #[trigger] r12.map.contains_key(k) implies r12.map[k] == r21.map[k] by {
        let x = r12.map[k];
        let y = r21.map[k];
        // Each is a competitor of the whole, not written before by any.
        assert(competes(r1.map, d2, k, x));
        assert(r21.map.contains_key(k));
        assert(competes(r2.map, d1, k, y));
        assert(competes(s.map, d1, k, x) || offered(d2, k, x)) by {
            if !offered(d2, k, x) {
                assert(competes(s.map, d1, k, r1.map[k]));
            }
        }
        assert(competes(s.map, d1, k, y) || offered(d2, k, y)) by {
            if !offered(d1, k, y) {
                assert(competes(s.map, d2, k, r2.map[k]));
                if !offered(d2, k, y) {
                    assert(s.map.contains_key(k) && s.map[k] == y);
                }
            }
        }
        // x is not written before y and y not before x.
        assert(!map_value_gt(y, x)) by {
            if offered(d2, k, y) {
                assert(competes(r1.map, d2, k, y));
            } else {
                assert(competes(s.map, d1, k, y));
                assert(!map_value_gt(y, r1.map[k]));
                assert(competes(r1.map, d2, k, r1.map[k]));
                assert(!map_value_gt(r1.map[k], x));
            }
        }
        assert(!map_value_gt(x, y)) by {
            if offered(d1, k, x) {
                assert(competes(r2.map, d1, k, x));
            } else if offered(d2, k, x) {
                assert(competes(s.map, d2, k, x));
                assert(!map_value_gt(x, r2.map[k]));
                assert(competes(r2.map, d1, k, r2.map[k]));
                assert(!map_value_gt(r2.map[k], y));
            } else {
                assert(competes(s.map, d2, k, x));
                assert(!map_value_gt(x, r2.map[k]));
                assert(competes(r2.map, d1, k, r2.map[k]));
                assert(!map_value_gt(r2.map[k], y));
            }
        }
        assert(x.idlp() == y.idlp());
    }
    assert(r12.map =~= r21.map);
}

/// Importing the same diff of writes twice changes no register the second
/// time. Writes with the same stamp are the same write.
pub proof fn law_import_diff_idempotent(s: MapStateView, d: Seq<(String, Option<MapValue>)>)
    requires
        all_writes(d),
        stamps_identify(s.map, d, d),
    ensures
        apply_all(apply_all(s, d, false), d, false).map == apply_all(s, d, false).map,
{
    let r1 = apply_all(s, d, false);
    let r2 = apply_all(r1, d, false);
    lemma_import_is_latest(s, d);
    lemma_import_is_latest(r1, d);
    assert forall|k: Seq<char>| #[trigger] r2.map.contains_key(k) implies r2.map[k] == r1.map[k] by {
        let x = r2.map[k];
        assert(competes(r1.map, d, k, x));
        assert(r1.map.contains_key(k));
        assert(competes(r1.map, d, k, r1.map[k]));
        assert(!map_value_gt(r1.map[k], x));
        assert(competes(s.map, d, k, r1.map[k]));
        if offered(d, k, x) {
            assert(competes(s.map, d, k, x));
            assert(!map_value_gt(x, r1.map[k]));
        }
        assert(x.idlp() == r1.map[k].idlp());
    }
    assert forall|k: Seq<char>| #[trigger] r2.map.contains_key(k) <==> r1.map.contains_key(k) by {
        if exists|v: MapValueView| offered(d, k, v) {
            let v = choose|v: MapValueView| offered(d, k, v);
            assert(competes(s.map, d, k, v));
        }
    }
    assert(r2.map =~= r1.map);
}

/// Replaying, in checkout mode, a diff that lists every register of `s`
/// once (as `to_diff` lists them) into a state without registers rebuilds
/// the registers of `s`.
pub proof fn law_replay_rebuilds(s: MapStateView, t: MapStateView, d: Seq<(String, Option<MapValue>)>)
    requires
        t.map == Map::<Seq<char>, MapValueView>::empty(),
        all_writes(d),
        forall|i: int, j: int| 0 <= i < j < d.len() ==> (#[trigger] d[i]).0@ != (#[trigger] d[j]).0@,
        forall|k: Seq<char>| #[trigger] s.map.contains_key(k) <==> exists|i: int| 0 <= i < d.len() && d[i].0@ == k,
        forall|i: int| 0 <= i < d.len() ==> opt_register_view((#[trigger] d[i]).1) == Some(s.map[d[i].0@]),
    ensures
        apply_all(t, d, true).map == s.map,
{
    lemma_replay(t, d);
    let r = apply_all(t, d, true);
    assert forall|k: Seq<char>| #[trigger] r.map.contains_key(k) <==> s.map.contains_key(k) by {
        if r.map.contains_key(k) {
            let i = choose|i: int| 0 <= i < d.len() && d[i].0@ == k;
        }
    }
    assert forall|k: Seq<char>| #[trigger] r.map.contains_key(k) implies r.map[k] == s.map[k] by {
        let i = choose|i: int| 0 <= i < d.len() && d[i].0@ == k;
        assert(opt_register_view(d[i].1) == Some(s.map[d[i].0@]));
    }
    assert(r.map =~= s.map);
}

proof fn lemma_replay(t: MapStateView, d: Seq<(String, Option<MapValue>)>)
    requires
        t.map == Map::<Seq<char>, MapValueView>::empty(),
        all_writes(d),
        forall|i: int, j: int| 0 <= i < j < d.len() ==> (#[trigger] d[i]).0@ != (#[trigger] d[j]).0@,
    ensures
        forall|k: Seq<char>| #[trigger] apply_all(t, d, true).map.contains_key(k) <==> exists|i: int| 0 <= i < d.len() && d[i].0@ == k,
        forall|i: int| 0 <= i < d.len() ==> Some(apply_all(t, d, true).map[(#[trigger] d[i]).0@]) == opt_register_view(d[i].1),
    decreases d.len(),
{
    if d.len() > 0 {
        let d0 = d.drop_last();
        assert forall|i: int| 0 <= i < d0.len() implies (#[trigger] d0[i]).1 is Some by {
            assert(d0[i] == d[i]);
        }
        assert forall|i: int, j: int| 0 <= i < j < d0.len() implies (#[trigger] d0[i]).0@ != (#[trigger] d0[j]).0@ by {
            assert(d0[i] == d[i] && d0[j] == d[j]);
        }
        lemma_replay(t, d0);
        let r = apply_all(t, d, true);
        let r0 = apply_all(t, d0, true);
        assert(d[d.len() - 1].1 is Some);
        assert forall|k: Seq<char>| #[trigger] r.map.contains_key(k) <==> exists|i: int| 0 <= i < d.len() && d[i].0@ == k by {
            if exists|i: int| 0 <= i < d.len() && d[i].0@ == k {
                let i = choose|i: int| 0 <= i < d.len() && d[i].0@ == k;
                if i < d0.len() {
                    assert(d0[i] == d[i]);
                    assert(r0.map.contains_key(k));
                }
            }
            if r0.map.contains_key(k) {
                let i = choose|i: int| 0 <= i < d0.len() && d0[i].0@ == k;
                assert(d[i] == d0[i]);
            }
        }
        assert forall|i: int| 0 <= i < d.len() implies Some(r.map[(#[trigger] d[i]).0@]) == opt_register_view(d[i].1) by {
            if i < d0.len() {
                assert(d0[i] == d[i]);
                assert(d[i].0@ != d[d.len() - 1].0@);
            }
        }
    }
}

/// An imported write against the register of its key: the register with
/// the later stamp stays, comparing Lamport timestamps first and peers
/// second, and the report names the write exactly when it is taken. A
/// forced write (checkout) is always taken.
pub proof fn law_import_later_stamp_wins(s: MapStateView, k: Seq<char>, v: MapValueView)
    ensures
        (!s.map.contains_key(k) || s.map[k].lamp < v.lamp || (s.map[k].lamp == v.lamp && s.map[k].peer <= v.peer)) ==> {
            &&& apply_entry(s, k, Some(v), false).map == s.map.insert(k, v)
            &&& report_entry(s, k, Some(v), false) == seq![(k, ResolvedMapValueView { idlp: IdLp { lamport: v.lamp, peer: v.peer }, value: v.value })]
        },
        (s.map.contains_key(k) && (v.lamp < s.map[k].lamp || (v.lamp == s.map[k].lamp && v.peer < s.map[k].peer))) ==> {
            &&& apply_entry(s, k, Some(v), false) == s
            &&& report_entry(s, k, Some(v), false) == Seq::<(Seq<char>, ResolvedMapValueView)>::empty()
        },
        apply_entry(s, k, Some(v), true).map == s.map.insert(k, v),
{
}

/// Forgetting a key unregisters the container it held and keeps every
/// other registered child; the registers of other keys stay.
pub proof fn law_remove_unregisters(s: MapStateView, k: Seq<char>)
    ensures
        remove_spec(s, k).map == s.map.remove(k),
        s.map.contains_key(k) && s.map[k].container() is Some ==> !remove_spec(s, k).children.contains_key(
            s.map[k].container()->0,
        ),
        forall|c: ContainerIdView|
            !(s.map.contains_key(k) && s.map[k].container() == Some(c)) ==> (#[trigger] remove_spec(s, k).children.contains_key(c)
                == s.children.contains_key(c) && (s.children.contains_key(c) ==> remove_spec(s, k).children[c] == s.children[c])),
        remove_spec(s, k).tombstones == s.tombstones,
        remove_spec(s, k).idx == s.idx,
{
}

/// Overwriting a key unregisters the container it held unless the new
/// register holds the same one, and registers the new register's
/// container under the key.
pub proof fn law_overwrite_unregisters(s: MapStateView, k: Seq<char>, v: MapValueView)
    ensures
        insert_spec(s, k, v).map == s.map.insert(k, v),
        s.map.contains_key(k) && s.map[k].container() is Some && v.container() != s.map[k].container() ==> !insert_spec(
            s,
            k,
            v,
        ).children.contains_key(s.map[k].container()->0),
        v.container() matches Some(c) ==> insert_spec(s, k, v).children.contains_key(c) && insert_spec(s, k, v).children[c] == k,
{
}

} // verus!

//! How the first and last operation stamps of a mergeable container move
//! as the history grows.

use vstd::prelude::*;
use crate::doc_state::{op_idlp, ArenaView, Change, OpLog};
use crate::mergeable::{arena_index, is_op_extremum, op_extremum};
use crate::types::{idlp_le, idlp_lt, ContainerIdView, ContainerIdx, IdLp};

verus! {

/// The stamps of the operations of change `ch` on container `idx`.
pub open spec fn change_stamps(ch: Change, idx: ContainerIdx) -> Set<IdLp> {
    Set::new(
        |x: IdLp|
            exists|j: int| 0 <= j < ch.ops@.len() && (#[trigger] ch.ops@[j]).container == idx && op_idlp(ch, ch.ops@[j]) == x,
    )
}

/// Appending a change adds exactly its stamps on `idx`.
pub proof fn lemma_op_idlps_push(log: OpLog, log2: OpLog, ch: Change, idx: ContainerIdx)
    requires
        log2.changes@ == log.changes@.push(ch),
    ensures
        forall|x: IdLp| #[trigger] log2.op_idlps(idx).contains(x) <==> log.op_idlps(idx).contains(x) || change_stamps(ch, idx).contains(x),
{
    let n = log.changes@.len();
    assert forall|x: IdLp| #[trigger] log2.op_idlps(idx).contains(x) <==> log.op_idlps(idx).contains(x) || change_stamps(ch, idx).contains(x) by {
        if log2.op_idlps(idx).contains(x) {
            let (i, j) = choose|i: int, j: int|
                0 <= i < log2.changes@.len() && 0 <= j < log2.changes@[i].ops@.len() && (#[trigger] log2.changes@[i].ops@[j]).container
                    == idx && op_idlp(log2.changes@[i], log2.changes@[i].ops@[j]) == x;
            if i < n {
                assert(log2.changes@[i] == log.changes@[i]);
                assert(log.changes@[i].ops@[j].container == idx);
            } else {
                assert(log2.changes@[i] == ch);
                assert(ch.ops@[j].container == idx);
            }
        }
        if log.op_idlps(idx).contains(x) {
            let (i, j) = choose|i: int, j: int|
                0 <= i < log.changes@.len() && 0 <= j < log.changes@[i].ops@.len() && (#[trigger] log.changes@[i].ops@[j]).container
                    == idx && op_idlp(log.changes@[i], log.changes@[i].ops@[j]) == x;
            assert(log2.changes@[i] == log.changes@[i]);
            assert(log2.changes@[i].ops@[j].container == idx);
        }
        if change_stamps(ch, idx).contains(x) {
            let j = choose|j: int| 0 <= j < ch.ops@.len() && (#[trigger] ch.ops@[j]).container == idx && op_idlp(ch, ch.ops@[j]) == x;
            assert(log2.changes@[n as int] == ch);
            assert(log2.changes@[n as int].ops@[j].container == idx);
        }
    }
}

proof fn lemma_extremum_unique(a: ArenaView, log: OpLog, c: ContainerIdView, latest: bool, x: IdLp, y: IdLp)
    requires
        is_op_extremum(a, log, c, latest, x),
        is_op_extremum(a, log, c, latest, y),
    ensures
        x == y,
{
    let s = log.op_idlps(arena_index(a, c) as ContainerIdx);
    assert(s.contains(x) && s.contains(y));
}

/// The first stamp of a container stays when the history grows by a
/// change whose operations on it are not earlier.
pub proof fn law_first_stamp_stable(a: ArenaView, log: OpLog, log2: OpLog, ch: Change, c: ContainerIdView)
    requires
        log2.changes@ == log.changes@.push(ch),
        op_extremum(a, log, c, false) is Some,
        forall|x: IdLp| #[trigger] change_stamps(ch, arena_index(a, c) as ContainerIdx).contains(x) ==> idlp_le(
            op_extremum(a, log, c, false)->0,
            x,
        ),
    ensures
        op_extremum(a, log2, c, false) == op_extremum(a, log, c, false),
{
    let f = op_extremum(a, log, c, false)->0;
    let idx = arena_index(a, c) as ContainerIdx;
    assert(is_op_extremum(a, log, c, false, f));
    lemma_op_idlps_push(log, log2, ch, idx);
    assert(is_op_extremum(a, log2, c, false, f));
    let g = choose|x: IdLp| is_op_extremum(a, log2, c, false, x);
    lemma_extremum_unique(a, log2, c, false, f, g);
}

/// The last stamp of a container moves to the latest stamp of a change
/// appended to the history, when that stamp is later than every earlier
/// operation on the container.
pub proof fn law_last_stamp_advances(a: ArenaView, log: OpLog, log2: OpLog, ch: Change, c: ContainerIdView, x: IdLp)
    requires
        log2.changes@ == log.changes@.push(ch),
        c.is_mergeable(),
        a.contains(c),
        change_stamps(ch, arena_index(a, c) as ContainerIdx).contains(x),
        forall|y: IdLp| #[trigger] change_stamps(ch, arena_index(a, c) as ContainerIdx).contains(y) ==> idlp_le(y, x),
        forall|y: IdLp| #[trigger] log.op_idlps(arena_index(a, c) as ContainerIdx).contains(y) ==> idlp_lt(y, x),
    ensures
        op_extremum(a, log2, c, true) == Some(x),
{
    let idx = arena_index(a, c) as ContainerIdx;
    lemma_op_idlps_push(log, log2, ch, idx);
    assert forall|y: IdLp| #[trigger] log2.op_idlps(idx).contains(y) implies idlp_le(y, x) by {
    }
    assert(is_op_extremum(a, log2, c, true, x));
    let g = choose|z: IdLp| is_op_extremum(a, log2, c, true, z);
    lemma_extremum_unique(a, log2, c, true, x, g);
}

/// The stamps of the first `n` operations of change `ch` on `idx`.
pub open spec fn prefix_stamps(ch: Change, idx: ContainerIdx, n: int) -> Set<IdLp> {
    Set::new(
        |x: IdLp|
            exists|j: int| 0 <= j < n && j < ch.ops@.len() && (#[trigger] ch.ops@[j]).container == idx && op_idlp(ch, ch.ops@[j]) == x,
    )
}

/// `x` is the least (or, when `latest`, the greatest) element of `s`.
pub open spec fn is_extreme(s: Set<IdLp>, latest: bool, x: IdLp) -> bool {
    &&& s.contains(x)
    &&& forall|y: IdLp| #[trigger] s.contains(y) ==> if latest {
        idlp_le(y, x)
    } else {
        idlp_le(x, y)
    }
}

proof fn lemma_idlp_total(x: IdLp, y: IdLp)
    ensures
        idlp_le(x, y) || idlp_le(y, x),
        idlp_le(x, y) && idlp_le(y, x) ==> x == y,
{
}

/// The stamps of a prefix of a change's operations, when there are any,
/// have a least and a greatest element.
proof fn lemma_prefix_extreme(ch: Change, idx: ContainerIdx, n: int, latest: bool)
    requires
        0 <= n <= ch.ops@.len(),
        exists|x: IdLp| prefix_stamps(ch, idx, n).contains(x),
    ensures
        exists|x: IdLp| is_extreme(prefix_stamps(ch, idx, n), latest, x),
    decreases n,
{
    let p = prefix_stamps(ch, idx, n);
    let q = prefix_stamps(ch, idx, n - 1);
    let z = op_idlp(ch, ch.ops@[n - 1]);
    assert forall|x: IdLp| #[trigger] p.contains(x) <==> q.contains(x) || (ch.ops@[n - 1].container == idx && x == z) by {
        if p.contains(x) {
            let j = choose|j: int| 0 <= j < n && j < ch.ops@.len() && (#[trigger] ch.ops@[j]).container == idx && op_idlp(ch, ch.ops@[j]) == x;
            if j < n - 1 {
                assert(q.contains(x));
            }
        }
        if q.contains(x) {
            let j = choose|j: int| 0 <= j < n - 1 && j < ch.ops@.len() && (#[trigger] ch.ops@[j]).container == idx && op_idlp(ch, ch.ops@[j]) == x;
            assert(p.contains(x));
        }
        if ch.ops@[n - 1].container == idx && x == z {
            assert(p.contains(x));
        }
    }
    if exists|x: IdLp| q.contains(x) {
        lemma_prefix_extreme(ch, idx, n - 1, latest);
        let m = choose|x: IdLp| is_extreme(q, latest, x);
        if ch.ops@[n - 1].container == idx {
            lemma_idlp_total(m, z);
            let better = if latest {
                idlp_le(m, z)
            } else {
                idlp_le(z, m)
            };
            if better {
                assert(is_extreme(p, latest, z)) by {
                    assert forall|y: IdLp| #[trigger] p.contains(y) implies (if latest {
                        idlp_le(y, z)
                    } else {
                        idlp_le(z, y)
                    }) by {
                        if q.contains(y) {
                            assert(q.contains(y));
                        }
                    }
                }
            } else {
                assert(is_extreme(p, latest, m));
            }
        } else {
            assert(is_extreme(p, latest, m));
        }
    } else {
        assert(ch.ops@[n - 1].container == idx);
        assert(is_extreme(p, latest, z));
    }
}

/// The extreme stamp after appending a change is the extreme of the old
/// one and of the change's stamps.
proof fn lemma_extreme_after_push(a: ArenaView, log: OpLog, log2: OpLog, ch: Change, c: ContainerIdView, latest: bool)
    requires
        log2.changes@ == log.changes@.push(ch),
        op_extremum(a, log, c, latest) is Some,
    ensures
        op_extremum(a, log2, c, latest) matches Some(g) && (if latest {
            idlp_le(op_extremum(a, log, c, latest)->0, g)
        } else {
            idlp_le(g, op_extremum(a, log, c, latest)->0)
        }),
{
    let idx = arena_index(a, c) as ContainerIdx;
    let f = op_extremum(a, log, c, latest)->0;
    assert(is_op_extremum(a, log, c, latest, f));
    lemma_op_idlps_push(log, log2, ch, idx);
    let s2 = log2.op_idlps(idx);
    let cs = change_stamps(ch, idx);
    assert(cs == prefix_stamps(ch, idx, ch.ops@.len() as int)) by {
        assert(cs =~= prefix_stamps(ch, idx, ch.ops@.len() as int));
    }
    let g = if exists|x: IdLp| cs.contains(x) {
        lemma_prefix_extreme(ch, idx, ch.ops@.len() as int, latest);
        let m = choose|x: IdLp| is_extreme(prefix_stamps(ch, idx, ch.ops@.len() as int), latest, x);
        lemma_idlp_total(f, m);
        if (latest && idlp_le(f, m)) || (!latest && idlp_le(m, f)) {
            m
        } else {
            f
        }
    } else {
        f
    };
    assert(is_op_extremum(a, log2, c, latest, g)) by {
        if exists|x: IdLp| cs.contains(x) {
            let m = choose|x: IdLp| is_extreme(prefix_stamps(ch, idx, ch.ops@.len() as int), latest, x);
            assert forall|y: IdLp| #[trigger] s2.contains(y) implies (if latest {
                idlp_le(y, g)
            } else {
                idlp_le(g, y)
            }) by {
                if cs.contains(y) {
                    assert(prefix_stamps(ch, idx, ch.ops@.len() as int).contains(y));
                } else {
                    assert(log.op_idlps(idx).contains(y));
                }
            }
        } else {
            assert forall|y: IdLp| #[trigger] s2.contains(y) implies (if latest {
                idlp_le(y, g)
            } else {
                idlp_le(g, y)
            }) by {
                assert(log.op_idlps(idx).contains(y));
            }
        }
    }
    let h = choose|x: IdLp| is_op_extremum(a, log2, c, latest, x);
    lemma_extremum_unique(a, log2, c, latest, g, h);
}

/// The first stamp of a container never moves later as the history grows
/// by a change, and the last stamp never moves earlier.
pub proof fn law_stamps_move_outward(a: ArenaView, log: OpLog, log2: OpLog, ch: Change, c: ContainerIdView)
    requires
        log2.changes@ == log.changes@.push(ch),
    ensures
        op_extremum(a, log, c, false) matches Some(f) ==> (op_extremum(a, log2, c, false) matches Some(f2) && idlp_le(f2, f)),
        op_extremum(a, log, c, true) matches Some(l) ==> (op_extremum(a, log2, c, true) matches Some(l2) && idlp_le(l, l2)),
{
    if op_extremum(a, log, c, false) is Some {
        lemma_extreme_after_push(a, log, log2, ch, c, false);
    }
    if op_extremum(a, log, c, true) is Some {
        lemma_extreme_after_push(a, log, log2, ch, c, true);
    }
}

/// The first stamp of a container is never later than its last stamp.
pub proof fn law_first_not_after_last(a: ArenaView, log: OpLog, c: ContainerIdView)
    ensures
        op_extremum(a, log, c, false) matches Some(f) ==> (op_extremum(a, log, c, true) matches Some(l) ==> idlp_le(f, l)),
{
    if op_extremum(a, log, c, false) is Some && op_extremum(a, log, c, true) is Some {
        let f = op_extremum(a, log, c, false)->0;
        let l = op_extremum(a, log, c, true)->0;
        assert(is_op_extremum(a, log, c, false, f));
        assert(is_op_extremum(a, log, c, true, l));
    }
}

/// The stamps of the operations on `idx` among the changes `cs`.
pub open spec fn stamps_in(cs: Seq<Change>, idx: ContainerIdx) -> Set<IdLp> {
    Set::new(
        |x: IdLp|
            exists|i: int, j: int|
                0 <= i < cs.len() && 0 <= j < cs[i].ops@.len() && (#[trigger] cs[i].ops@[j]).container == idx && op_idlp(
                    cs[i],
                    cs[i].ops@[j],
                ) == x,
    )
}

proof fn lemma_stamps_in_push(cs: Seq<Change>, ch: Change, idx: ContainerIdx)
    ensures
        forall|x: IdLp| #[trigger] stamps_in(cs.push(ch), idx).contains(x) <==> stamps_in(cs, idx).contains(x) || change_stamps(ch, idx).contains(x),
{
    let cs2 = cs.push(ch);
    assert forall|x: IdLp| #[trigger] stamps_in(cs2, idx).contains(x) <==> stamps_in(cs, idx).contains(x) || change_stamps(ch, idx).contains(x) by {
        if stamps_in(cs2, idx).contains(x) {
            let (i, j) = choose|i: int, j: int|
                0 <= i < cs2.len() && 0 <= j < cs2[i].ops@.len() && (#[trigger] cs2[i].ops@[j]).container == idx && op_idlp(cs2[i], cs2[i].ops@[j]) == x;
            if i < cs.len() {
                assert(cs[i] == cs2[i]);
                assert(cs[i].ops@[j].container == idx);
            } else {
                assert(cs2[i] == ch);
                assert(ch.ops@[j].container == idx);
            }
        }
        if stamps_in(cs, idx).contains(x) {
            let (i, j) = choose|i: int, j: int|
                0 <= i < cs.len() && 0 <= j < cs[i].ops@.len() && (#[trigger] cs[i].ops@[j]).container == idx && op_idlp(cs[i], cs[i].ops@[j]) == x;
            assert(cs2[i] == cs[i]);
            assert(cs2[i].ops@[j].container == idx);
        }
        if change_stamps(ch, idx).contains(x) {
            let j = choose|j: int| 0 <= j < ch.ops@.len() && (#[trigger] ch.ops@[j]).container == idx && op_idlp(ch, ch.ops@[j]) == x;
            assert(cs2[cs.len() as int] == ch);
            assert(cs2[cs.len() as int].ops@[j].container == idx);
        }
    }
}

/// Among the stamps of any list of changes, when there is one, there is a
/// least and a greatest.
proof fn lemma_stamps_extreme(cs: Seq<Change>, idx: ContainerIdx, latest: bool)
    requires
        exists|x: IdLp| #[trigger] stamps_in(cs, idx).contains(x),
    ensures
        exists|x: IdLp| is_extreme(stamps_in(cs, idx), latest, x),
    decreases cs.len(),
{
    let cs0 = cs.drop_last();
    let ch = cs.last();
    assert(cs0.push(ch) =~= cs);
    lemma_stamps_in_push(cs0, ch, idx);
    let s = stamps_in(cs, idx);
    let s0 = stamps_in(cs0, idx);
    let cstamps = change_stamps(ch, idx);
    assert(cstamps =~= prefix_stamps(ch, idx, ch.ops@.len() as int));
    let has0 = exists|x: IdLp| s0.contains(x);
    let has1 = exists|x: IdLp| cstamps.contains(x);
    if has0 {
        lemma_stamps_extreme(cs0, idx, latest);
    }
    if has1 {
        lemma_prefix_extreme(ch, idx, ch.ops@.len() as int, latest);
    }
    if has0 && has1 {
        let m0 = choose|x: IdLp| is_extreme(s0, latest, x);
        let m1 = choose|x: IdLp| is_extreme(prefix_stamps(ch, idx, ch.ops@.len() as int), latest, x);
        lemma_idlp_total(m0, m1);
        if (latest && idlp_le(m0, m1)) || (!latest && idlp_le(m1, m0)) {
            assert(is_extreme(s, latest, m1)) by {
                assert forall|y: IdLp| #[trigger] s.contains(y) implies (if latest { idlp_le(y, m1) } else { idlp_le(m1, y) }) by {
                    if cstamps.contains(y) {
                        assert(prefix_stamps(ch, idx, ch.ops@.len() as int).contains(y));
                    } else {
                        assert(s0.contains(y));
                    }
                }
            }
        } else {
            assert(is_extreme(s, latest, m0)) by {
                assert forall|y: IdLp| #[trigger] s.contains(y) implies (if latest { idlp_le(y, m0) } else { idlp_le(m0, y) }) by {
                    if cstamps.contains(y) {
                        assert(prefix_stamps(ch, idx, ch.ops@.len() as int).contains(y));
                    } else {
                        assert(s0.contains(y));
                    }
                }
            }
        }
    } else if has0 {
        let m0 = choose|x: IdLp| is_extreme(s0, latest, x);
        assert(is_extreme(s, latest, m0)) by {
            assert forall|y: IdLp| #[trigger] s.contains(y) implies (if latest { idlp_le(y, m0) } else { idlp_le(m0, y) }) by {
                assert(s0.contains(y));
            }
        }
    } else {
        let m1 = choose|x: IdLp| is_extreme(prefix_stamps(ch, idx, ch.ops@.len() as int), latest, x);
        assert(is_extreme(s, latest, m1)) by {
            assert forall|y: IdLp| #[trigger] s.contains(y) implies (if latest { idlp_le(y, m1) } else { idlp_le(m1, y) }) by {
                assert(cstamps.contains(y));
                assert(prefix_stamps(ch, idx, ch.ops@.len() as int).contains(y));
            }
        }
        let x = choose|x: IdLp| s.contains(x);
        assert(cstamps.contains(x));
    }
}

/// A registered mergeable container with an operation has both a first
/// and a last operation stamp.
proof fn lemma_extremum_exists(a: ArenaView, log: OpLog, c: ContainerIdView, latest: bool)
    requires
        c.is_mergeable(),
        a.contains(c),
        exists|x: IdLp| #[trigger] log.op_idlps(arena_index(a, c) as ContainerIdx).contains(x),
    ensures
        op_extremum(a, log, c, latest) matches Some(x) && is_op_extremum(a, log, c, latest, x),
{
    let idx = arena_index(a, c) as ContainerIdx;
    assert(log.op_idlps(idx) =~= stamps_in(log.changes@, idx));
    lemma_stamps_extreme(log.changes@, idx, latest);
    let m = choose|x: IdLp| is_extreme(stamps_in(log.changes@, idx), latest, x);
    assert(is_op_extremum(a, log, c, latest, m));
}

/// A container has a last operation stamp exactly when it has a first one.
pub proof fn law_last_stamp_exists_with_first(a: ArenaView, log: OpLog, c: ContainerIdView)
    ensures
        op_extremum(a, log, c, false) is Some <==> op_extremum(a, log, c, true) is Some,
{
    let idx = arena_index(a, c) as ContainerIdx;
    if op_extremum(a, log, c, false) is Some {
        let f = op_extremum(a, log, c, false)->0;
        assert(is_op_extremum(a, log, c, false, f));
        lemma_extremum_exists(a, log, c, true);
    }
    if op_extremum(a, log, c, true) is Some {
        let l = op_extremum(a, log, c, true)->0;
        assert(is_op_extremum(a, log, c, true, l));
        lemma_extremum_exists(a, log, c, false);
    }
}

/// As the history grows by any number of changes, the first stamp of a
/// container never moves later and the last never moves earlier.
pub proof fn law_stamps_move_outward_over_history(a: ArenaView, log: OpLog, log2: OpLog, c: ContainerIdView)
    requires
        log.changes@.is_prefix_of(log2.changes@),
    ensures
        op_extremum(a, log, c, false) matches Some(f) ==> (op_extremum(a, log2, c, false) matches Some(f2) && idlp_le(f2, f)),
        op_extremum(a, log, c, true) matches Some(l) ==> (op_extremum(a, log2, c, true) matches Some(l2) && idlp_le(l, l2)),
{
    let idx = arena_index(a, c) as ContainerIdx;
    assert forall|x: IdLp| #[trigger] log.op_idlps(idx).contains(x) implies log2.op_idlps(idx).contains(x) by {
        let (i, j) = choose|i: int, j: int|
            0 <= i < log.changes@.len() && 0 <= j < log.changes@[i].ops@.len() && (#[trigger] log.changes@[i].ops@[j]).container
                == idx && op_idlp(log.changes@[i], log.changes@[i].ops@[j]) == x;
        assert(log2.changes@[i] == log.changes@[i]);
        assert(log2.changes@[i].ops@[j].container == idx);
    }
    if op_extremum(a, log, c, false) is Some {
        let f = op_extremum(a, log, c, false)->0;
        assert(is_op_extremum(a, log, c, false, f));
        assert(log2.op_idlps(idx).contains(f));
        lemma_extremum_exists(a, log2, c, false);
        let g = op_extremum(a, log2, c, false)->0;
        assert(is_op_extremum(a, log2, c, false, g));
    }
    if op_extremum(a, log, c, true) is Some {
        let l = op_extremum(a, log, c, true)->0;
        assert(is_op_extremum(a, log, c, true, l));
        assert(log2.op_idlps(idx).contains(l));
        lemma_extremum_exists(a, log2, c, true);
        let g = op_extremum(a, log2, c, true)->0;
        assert(is_op_extremum(a, log2, c, true, g));
    }
}

/// As the history grows by any number of changes, the first stamp stays
/// when no added operation on the container is earlier, and the last stamp
/// moves to `x` when `x` is an added stamp later than every other.
pub proof fn law_stamps_after_history_grows(a: ArenaView, log: OpLog, log2: OpLog, c: ContainerIdView, x: IdLp)
    requires
        log.changes@.is_prefix_of(log2.changes@),
    ensures
        (op_extremum(a, log, c, false) matches Some(f) && forall|y: IdLp| #[trigger]
            log2.op_idlps(arena_index(a, c) as ContainerIdx).contains(y) ==> idlp_le(f, y)) ==> op_extremum(a, log2, c, false)
            == op_extremum(a, log, c, false),
        (c.is_mergeable() && a.contains(c) && log2.op_idlps(arena_index(a, c) as ContainerIdx).contains(x) && forall|y: IdLp|
            #[trigger] log2.op_idlps(arena_index(a, c) as ContainerIdx).contains(y) ==> idlp_le(y, x)) ==> op_extremum(
            a,
            log2,
            c,
            true,
        ) == Some(x),
{
    let idx = arena_index(a, c) as ContainerIdx;
    assert forall|z: IdLp| #[trigger] log.op_idlps(idx).contains(z) implies log2.op_idlps(idx).contains(z) by {
        let (i, j) = choose|i: int, j: int|
            0 <= i < log.changes@.len() && 0 <= j < log.changes@[i].ops@.len() && (#[trigger] log.changes@[i].ops@[j]).container
                == idx && op_idlp(log.changes@[i], log.changes@[i].ops@[j]) == z;
        assert(log2.changes@[i] == log.changes@[i]);
        assert(log2.changes@[i].ops@[j].container == idx);
    }
    if op_extremum(a, log, c, false) is Some {
        let f = op_extremum(a, log, c, false)->0;
        assert(is_op_extremum(a, log, c, false, f));
        if forall|y: IdLp| #[trigger] log2.op_idlps(idx).contains(y) ==> idlp_le(f, y) {
            assert(is_op_extremum(a, log2, c, false, f));
            let g = choose|z: IdLp| is_op_extremum(a, log2, c, false, z);
            lemma_extremum_unique(a, log2, c, false, f, g);
        }
    }
    if c.is_mergeable() && a.contains(c) && log2.op_idlps(idx).contains(x) && forall|y: IdLp| #[trigger]
        log2.op_idlps(idx).contains(y) ==> idlp_le(y, x) {
        assert(is_op_extremum(a, log2, c, true, x));
        let g = choose|z: IdLp| is_op_extremum(a, log2, c, true, z);
        lemma_extremum_unique(a, log2, c, true, x, g);
    }
}

} // verus!

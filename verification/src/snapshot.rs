//! The fast snapshot of a map state. After the value section (the present
//! values, written by the caller), the snapshot holds the keys whose
//! register is deleted, the peers that wrote the registers, and for every
//! key in order the index of its peer and its Lamport stamp.

use vstd::prelude::*;
use crate::keys::{compare_keys, key_lt, lemma_key_order, KeyOrder};
use crate::map_state::{insert_spec, present_values, LoroError, MapState, MapStateView};
use crate::types::{ContainerIdView, ContainerIdx, IdLp};
use crate::value::{opt_value_view, LoroValue, LoroValueView};
use crate::str_map::{lemma_seq_map, lemma_sorted_unique, seq_map, unique_keys, StrMap};
use crate::value::{MapValue, MapValueView};
use crate::wire::{
    le_bytes, le_concat, le_value, lemma_le_roundtrip, postcard_take_strings, wire_strings_take, push_le_bytes, read_le_u64, read_uleb128,
    strings_then, strings_view, take_postcard_strings, uleb128, uleb_take, wire_strings, write_postcard_strings,
    write_uleb128,
};

verus! {

/// Keys strictly increase along `ks`.
pub open spec fn strictly_sorted(ks: Seq<Seq<char>>) -> bool {
    forall|i: int, j: int| 0 <= i < j < ks.len() ==> key_lt(#[trigger] ks[i], #[trigger] ks[j])
}

/// `ks` lists the keys of `s` in increasing order.
pub open spec fn enumerates(ks: Seq<Seq<char>>, s: Set<Seq<char>>) -> bool {
    &&& strictly_sorted(ks)
    &&& forall|k: Seq<char>| #[trigger] ks.contains(k) <==> s.contains(k)
}

/// The keys of `s` in increasing order.
pub open spec fn sorted_key_seq(s: Set<Seq<char>>) -> Seq<Seq<char>> {
    choose|ks: Seq<Seq<char>>| enumerates(ks, s)
}

/// A set has at most one increasing enumeration.
pub proof fn lemma_enumeration_unique(a: Seq<Seq<char>>, b: Seq<Seq<char>>, s: Set<Seq<char>>)
    requires
        enumerates(a, s),
        enumerates(b, s),
    ensures
        a == b,
    decreases a.len(),
{
    if a.len() == 0 {
        if b.len() > 0 {
            assert(b.contains(b[0]));
            assert(!a.contains(b[0]));
        }
        assert(a =~= b);
    } else {
        assert(a.contains(a[0]));
        assert(b.contains(a[0]));
        assert(b.len() > 0);
        assert(a[0] == b[0]) by {
            let j = choose|j: int| 0 <= j < b.len() && b[j] == a[0];
            assert(b.contains(b[0]));
            assert(s.contains(b[0]));
            assert(a.contains(b[0]));
            let i = choose|i: int| 0 <= i < a.len() && a[i] == b[0];
            lemma_key_order(a[0], b[0], a[0]);
            if j > 0 && i > 0 {
                assert(key_lt(b[0], b[j]));
                assert(key_lt(a[0], a[i]));
            }
        }
        let s2 = s.remove(a[0]);
        let a2 = a.drop_first();
        let b2 = b.drop_first();
        assert forall|i: int, j: int| 0 <= i < j < a2.len() implies key_lt(#[trigger] a2[i], #[trigger] a2[j]) by {
            assert(a2[i] == a[i + 1] && a2[j] == a[j + 1]);
        }
        assert forall|i: int, j: int| 0 <= i < j < b2.len() implies key_lt(#[trigger] b2[i], #[trigger] b2[j]) by {
            assert(b2[i] == b[i + 1] && b2[j] == b[j + 1]);
        }
        assert forall|k: Seq<char>| #[trigger] a2.contains(k) <==> s2.contains(k) by {
            if a2.contains(k) {
                let i = choose|i: int| 0 <= i < a2.len() && a2[i] == k;
                assert(a[i + 1] == k);
                assert(a.contains(k));
                assert(s.contains(k));
                assert(key_lt(a[0], a[i + 1]));
                lemma_key_order(a[0], a[0], a[0]);
                assert(k != a[0]);
                assert(s2.contains(k));
            }
            if s2.contains(k) {
                assert(s.contains(k));
                assert(a.contains(k));
                let i = choose|i: int| 0 <= i < a.len() && a[i] == k;
                assert(i > 0);
                assert(a2[i - 1] == k);
            }
        }
        assert forall|k: Seq<char>| #[trigger] b2.contains(k) <==> s2.contains(k) by {
            if b2.contains(k) {
                let i = choose|i: int| 0 <= i < b2.len() && b2[i] == k;
                assert(b[i + 1] == k);
                assert(b.contains(k));
                assert(s.contains(k));
                assert(key_lt(b[0], b[i + 1]));
                lemma_key_order(b[0], b[0], b[0]);
                assert(k != a[0]);
                assert(s2.contains(k));
            }
            if s2.contains(k) {
                assert(s.contains(k));
                assert(b.contains(k));
                let i = choose|i: int| 0 <= i < b.len() && b[i] == k;
                assert(i > 0);
                assert(b2[i - 1] == k);
            }
        }
        lemma_enumeration_unique(a2, b2, s2);
        assert(a =~= b) by {
            assert forall|i: int| 0 <= i < a.len() implies a[i] == b[i] by {
                if i > 0 {
                    assert(a[i] == a2[i - 1]);
                    assert(b[i] == b2[i - 1]);
                }
            }
        }
    }
}

/// The keys of `ks` whose register in `m` is deleted, in order.
pub open spec fn deleted_in(ks: Seq<Seq<char>>, m: Map<Seq<char>, MapValueView>) -> Seq<Seq<char>>
    decreases ks.len(),
{
    if ks.len() == 0 {
        Seq::empty()
    } else {
        deleted_in(ks.drop_last(), m) + if m[ks.last()].value is None {
            seq![ks.last()]
        } else {
            Seq::empty()
        }
    }
}

/// The peers of the registers of `ks` in `m`, in order.
pub open spec fn peers_in(ks: Seq<Seq<char>>, m: Map<Seq<char>, MapValueView>) -> Seq<u64> {
    ks.map_values(|k: Seq<char>| m[k].peer)
}

/// The distinct elements of `ps` in the order of their first occurrence.
pub open spec fn first_seen(ps: Seq<u64>) -> Seq<u64>
    decreases ps.len(),
{
    if ps.len() == 0 {
        Seq::empty()
    } else {
        let f = first_seen(ps.drop_last());
        if f.contains(ps.last()) {
            f
        } else {
            f.push(ps.last())
        }
    }
}

/// The index of `p` in `ps`.
pub open spec fn position(ps: Seq<u64>, p: u64) -> int {
    choose|i: int| 0 <= i < ps.len() && ps[i] == p
}

/// For every key of `ks` in order: the index of its peer in `ps` and its
/// Lamport stamp, both as LEB128 numbers.
pub open spec fn pair_bytes(ks: Seq<Seq<char>>, m: Map<Seq<char>, MapValueView>, ps: Seq<u64>) -> Seq<u8>
    decreases ks.len(),
{
    if ks.len() == 0 {
        Seq::empty()
    } else {
        pair_bytes(ks.drop_last(), m, ps) + uleb128(position(ps, m[ks.last()].peer) as nat) + uleb128(
            m[ks.last()].lamp as nat,
        )
    }
}

/// The snapshot of the registers `m` after its value section: the deleted
/// keys as a postcard list of strings, the number of peers as a LEB128
/// number, each peer as eight little-endian bytes, then for every key in
/// order the index of its peer and its Lamport stamp.
pub open spec fn snapshot_meta(m: Map<Seq<char>, MapValueView>) -> Seq<u8> {
    let ks = sorted_key_seq(m.dom());
    let ps = first_seen(peers_in(ks, m));
    wire_strings(deleted_in(ks, m)) + uleb128(ps.len()) + le_concat(ps) + pair_bytes(ks, m, ps)
}

pub proof fn lemma_first_seen(ps: Seq<u64>)
    ensures
        forall|x: u64| #[trigger] first_seen(ps).contains(x) <==> ps.contains(x),
        forall|i: int, j: int| 0 <= i < j < first_seen(ps).len() ==> #[trigger] first_seen(ps)[i] != #[trigger] first_seen(ps)[j],
        first_seen(ps).len() <= ps.len(),
    decreases ps.len(),
{
    if ps.len() > 0 {
        let q = ps.drop_last();
        lemma_first_seen(q);
        let f = first_seen(q);
        assert forall|x: u64| #[trigger] first_seen(ps).contains(x) <==> ps.contains(x) by {
            if ps.contains(x) {
                let i = choose|i: int| 0 <= i < ps.len() && ps[i] == x;
                if i < ps.len() - 1 {
                    assert(q[i] == x);
                    assert(q.contains(x));
                    assert(f.contains(x));
                    if !f.contains(ps.last()) {
                        assert(f.push(ps.last())[f.index_of(x)] == x);
                    }
                } else {
                    if !f.contains(ps.last()) {
                        assert(f.push(ps.last())[f.len() as int] == x);
                    }
                }
            }
            if f.contains(x) {
                assert(q.contains(x));
                let i = choose|i: int| 0 <= i < q.len() && q[i] == x;
                assert(ps[i] == x);
            }
            if first_seen(ps).contains(x) && !f.contains(x) {
                assert(x == ps.last());
            }
        }
    }
}

/// In a list without repeats, the position of an element is its index.
pub proof fn lemma_position(ps: Seq<u64>, j: int)
    requires
        0 <= j < ps.len(),
        forall|a: int, b: int| 0 <= a < b < ps.len() ==> #[trigger] ps[a] != #[trigger] ps[b],
    ensures
        position(ps, ps[j]) == j,
{
    let i = position(ps, ps[j]);
    assert(0 <= i < ps.len() && ps[i] == ps[j]);
}

/// The first index of `p` in `peers`, if it occurs.
fn index_of_peer(peers: &Vec<u64>, p: u64) -> (r: Option<usize>)
    ensures
        match r {
            Some(j) => j < peers@.len() && peers@[j as int] == p,
            None => !peers@.contains(p),
        },
{
    let mut j: usize = 0;
    while j < peers.len()
        invariant
            j <= peers@.len(),
            forall|l: int| 0 <= l < j ==> peers@[l] != p,
        decreases peers@.len() - j,
    {
        if peers[j] == p {
            return Some(j);
        }
        j = j + 1;
    }
    None
}

/// The map state of a new container `idx`.
pub open spec fn new_map_view(idx: ContainerIdx) -> MapStateView {
    MapStateView { idx, map: Map::empty(), children: Map::empty(), tombstones: Map::empty() }
}

/// Reading `n` peers of eight little-endian bytes each from `b`.
pub open spec fn take_peers(b: Seq<u8>, n: nat) -> Option<(Seq<u64>, Seq<u8>)>
    decreases n,
{
    if n == 0 {
        Some((Seq::empty(), b))
    } else if b.len() < 8 {
        None
    } else {
        match take_peers(b.skip(8), (n - 1) as nat) {
            Some((ps, r)) => Some((seq![le_value(b) as u64] + ps, r)),
            None => None,
        }
    }
}

/// Reading one peer index and one Lamport stamp for key `k` from `b`, and
/// writing the register of `k` with the value `v`: nothing when a number
/// cannot be read or the index names no peer.
pub open spec fn decode_one(
    s: MapStateView,
    k: Seq<char>,
    v: Option<LoroValueView>,
    peers: Seq<u64>,
    b: Seq<u8>,
) -> Option<(MapStateView, Seq<u8>)> {
    match uleb_take(b) {
        None => None,
        Some((pi, r1)) => match uleb_take(r1) {
            None => None,
            Some((lamp, r2)) => if (pi as usize) < peers.len() {
                Some((insert_spec(s, k, MapValueView { value: v, lamp: lamp as u32, peer: peers[(pi as usize) as int] }), r2))
            } else {
                None
            },
        },
    }
}

/// Reading the registers of key `k`: a key that is both among the values
/// and among the deleted keys is read twice, and is deleted.
pub open spec fn decode_key(
    s: MapStateView,
    k: Seq<char>,
    vals: Map<Seq<char>, LoroValueView>,
    deleted: Set<Seq<char>>,
    peers: Seq<u64>,
    b: Seq<u8>,
) -> Option<(MapStateView, Seq<u8>)> {
    let v = if deleted.contains(k) {
        None
    } else {
        Some(vals[k])
    };
    match decode_one(s, k, v, peers, b) {
        None => None,
        Some((s1, b1)) => if vals.contains_key(k) && deleted.contains(k) {
            decode_one(s1, k, v, peers, b1)
        } else {
            Some((s1, b1))
        },
    }
}

/// Reading the registers of the keys `ks`, in order.
pub open spec fn decode_keys(
    s: MapStateView,
    ks: Seq<Seq<char>>,
    vals: Map<Seq<char>, LoroValueView>,
    deleted: Set<Seq<char>>,
    peers: Seq<u64>,
    b: Seq<u8>,
) -> Option<(MapStateView, Seq<u8>)>
    decreases ks.len(),
{
    if ks.len() == 0 {
        Some((s, b))
    } else {
        match decode_key(s, ks[0], vals, deleted, peers, b) {
            None => None,
            Some((s1, b1)) => decode_keys(s1, ks.drop_first(), vals, deleted, peers, b1),
        }
    }
}

/// The map state that the snapshot of container `idx` gives, from its
/// present values `vals`, its deleted keys `deleted` and the bytes `rest`
/// after them: the number of peers, the peers, then the registers of every
/// key in key order. Nothing where the bytes are cut short or an index
/// names no peer.
pub open spec fn decode_tail(
    idx: ContainerIdx,
    vals: Map<Seq<char>, LoroValueView>,
    deleted: Seq<Seq<char>>,
    rest: Seq<u8>,
) -> Option<MapStateView> {
    match uleb_take(rest) {
        None => None,
        Some((n, r1)) => match take_peers(r1, (n as usize) as nat) {
            None => None,
            Some((peers, r2)) => {
                let dset = deleted.to_set();
                match decode_keys(new_map_view(idx), sorted_key_seq(vals.dom().union(dset)), vals, dset, peers, r2) {
                    Some((st, _)) => Some(st),
                    None => None,
                }
            },
        },
    }
}

/// The snapshot bytes after the value section can be read without
/// failing where reading them panics: the deleted keys cannot be read (an
/// error), or everything after them can.
pub open spec fn tail_readable(idx: ContainerIdx, vals: Map<Seq<char>, LoroValueView>, bytes: Seq<u8>) -> bool {
    match postcard_take_strings(bytes) {
        None => true,
        Some((deleted, rest)) => decode_tail(idx, vals, deleted, rest) is Some,
    }
}

/// `bytes` starts with the snapshot of the registers `m`.
pub open spec fn is_snapshot_of(m: Map<Seq<char>, MapValueView>, bytes: Seq<u8>) -> bool {
    &&& enumerates(sorted_key_seq(m.dom()), m.dom())
    &&& exists|t: Seq<u8>| bytes == snapshot_meta(m) + t
}

pub proof fn lemma_le_concat_front(ps: Seq<u64>)
    requires
        ps.len() > 0,
    ensures
        le_concat(ps) == le_bytes(ps[0]) + le_concat(ps.drop_first()),
    decreases ps.len(),
{
    if ps.len() > 1 {
        lemma_le_concat_front(ps.drop_last());
        assert(ps.drop_last().drop_first() =~= ps.drop_first().drop_last());
        assert(ps.drop_last()[0] == ps[0]);
        assert(ps.drop_first().last() == ps.last());
    } else {
        assert(ps.drop_first() =~= Seq::<u64>::empty());
        assert(ps.drop_last() =~= Seq::<u64>::empty());
    }
}

pub proof fn lemma_take_peers(ps: Seq<u64>, t: Seq<u8>)
    ensures
        take_peers(le_concat(ps) + t, ps.len()) == Some((ps, t)),
    decreases ps.len(),
{
    if ps.len() > 0 {
        lemma_le_concat_front(ps);
        let b = le_concat(ps) + t;
        lemma_take_peers(ps.drop_first(), t);
        assert(le_bytes(ps[0]).len() == 8);
        assert(b.skip(8) =~= le_concat(ps.drop_first()) + t);
        assert(b.take(8) =~= le_bytes(ps[0]));
        assert(le_value(b) == le_value(le_bytes(ps[0]))) by {
            assert(b[0] == le_bytes(ps[0])[0]);
            assert(b[1] == le_bytes(ps[0])[1]);
            assert(b[2] == le_bytes(ps[0])[2]);
            assert(b[3] == le_bytes(ps[0])[3]);
            assert(b[4] == le_bytes(ps[0])[4]);
            assert(b[5] == le_bytes(ps[0])[5]);
            assert(b[6] == le_bytes(ps[0])[6]);
            assert(b[7] == le_bytes(ps[0])[7]);
        }
        lemma_le_roundtrip(ps[0]);
        assert(seq![ps[0]] + ps.drop_first() =~= ps);
    } else {
        assert(le_concat(ps) + t =~= t);
    }
}

pub proof fn lemma_le_concat_len(ps: Seq<u64>)
    ensures
        le_concat(ps).len() == 8 * ps.len(),
    decreases ps.len(),
{
    if ps.len() > 0 {
        lemma_le_concat_len(ps.drop_last());
    }
}

/// The bytes of the registers of one key.
pub open spec fn pair_of(k: Seq<char>, m: Map<Seq<char>, MapValueView>, ps: Seq<u64>) -> Seq<u8> {
    uleb128(position(ps, m[k].peer) as nat) + uleb128(m[k].lamp as nat)
}

pub proof fn lemma_pair_bytes_front(ks: Seq<Seq<char>>, m: Map<Seq<char>, MapValueView>, ps: Seq<u64>)
    requires
        ks.len() > 0,
    ensures
        pair_bytes(ks, m, ps) == pair_of(ks[0], m, ps) + pair_bytes(ks.drop_first(), m, ps),
    decreases ks.len(),
{
    if ks.len() > 1 {
        lemma_pair_bytes_front(ks.drop_last(), m, ps);
        assert(ks.drop_last().drop_first() =~= ks.drop_first().drop_last());
        assert(ks.drop_last()[0] == ks[0]);
        assert(ks.drop_first().last() == ks.last());
    } else {
        assert(ks.drop_first() =~= Seq::<Seq<char>>::empty());
        assert(ks.drop_last() =~= Seq::<Seq<char>>::empty());
    }
}

pub proof fn lemma_deleted_in(ks: Seq<Seq<char>>, m: Map<Seq<char>, MapValueView>)
    ensures
        forall|k: Seq<char>| #[trigger] deleted_in(ks, m).contains(k) <==> ks.contains(k) && m[k].value is None,
    decreases ks.len(),
{
    if ks.len() > 0 {
        lemma_deleted_in(ks.drop_last(), m);
        assert forall|k: Seq<char>| #[trigger] deleted_in(ks, m).contains(k) <==> ks.contains(k) && m[k].value is None by {
            let d = deleted_in(ks.drop_last(), m);
            if ks.contains(k) && m[k].value is None {
                let i = choose|i: int| 0 <= i < ks.len() && ks[i] == k;
                if i < ks.len() - 1 {
                    assert(ks.drop_last()[i] == k);
                    assert(d.contains(k));
                    let j = choose|j: int| 0 <= j < d.len() && d[j] == k;
                    assert(deleted_in(ks, m)[j] == k);
                } else {
                    assert(deleted_in(ks, m)[d.len() as int] == k);
                }
            }
            if deleted_in(ks, m).contains(k) {
                let j = choose|j: int| 0 <= j < deleted_in(ks, m).len() && deleted_in(ks, m)[j] == k;
                if j < d.len() {
                    assert(d[j] == k);
                    assert(d.contains(k));
                    let i = choose|i: int| 0 <= i < ks.drop_last().len() && ks.drop_last()[i] == k;
                    assert(ks[i] == k);
                } else {
                    assert(k == ks.last());
                    assert(ks[ks.len() - 1] == k);
                }
            }
        }
    }
}

/// Reading back the registers of keys `ks` from their bytes writes each
/// key's register of `m` and leaves what follows.
#[verifier::spinoff_prover]
#[verifier::rlimit(50)]
pub proof fn lemma_decode_keys(
    s: MapStateView,
    ks: Seq<Seq<char>>,
    m: Map<Seq<char>, MapValueView>,
    ps: Seq<u64>,
    t: Seq<u8>,
)
    requires
        forall|i: int| 0 <= i < ks.len() ==> m.contains_key(#[trigger] ks[i]) && ps.contains(m[ks[i]].peer),
        forall|a: int, b: int| 0 <= a < b < ps.len() ==> #[trigger] ps[a] != #[trigger] ps[b],
        ps.len() <= usize::MAX,
        forall|a: int, b: int| 0 <= a < b < ks.len() ==> #[trigger] ks[a] != #[trigger] ks[b],
        forall|i: int| 0 <= i < ks.len() ==> !s.map.contains_key(#[trigger] ks[i]),
    ensures
        decode_keys(s, ks, present_values(m), deleted_keys(m), ps, pair_bytes(ks, m, ps) + t) matches Some((s2, r)) && r
            == t && (forall|k: Seq<char>| #[trigger] s2.map.contains_key(k) <==> s.map.contains_key(k) || ks.contains(k))
            && (forall|k: Seq<char>| #[trigger] s2.map.contains_key(k) ==> s2.map[k] == if ks.contains(k) {
            m[k]
        } else {
            s.map[k]
        }) && s2.idx == s.idx && s2.tombstones == s.tombstones && (forall|c: ContainerIdView|
            #[trigger] s2.children.contains_key(c) <==> s.children.contains_key(c) || exists|i: int|
                0 <= i < ks.len() && m[ks[i]].container() == Some(c)),
    decreases ks.len(),
{
    let vals = present_values(m);
    let del = deleted_keys(m);
    if ks.len() == 0 {
        assert(pair_bytes(ks, m, ps) + t =~= t);
    } else {
        let k = ks[0];
        lemma_pair_bytes_front(ks, m, ps);
        let mk = m[k];
        let pi = position(ps, mk.peer);
        assert(m.contains_key(k) && ps.contains(mk.peer));
        let j = choose|j: int| 0 <= j < ps.len() && ps[j] == mk.peer;
        lemma_position(ps, j);
        let rest = pair_bytes(ks.drop_first(), m, ps) + t;
        let b = pair_of(k, m, ps) + rest;
        assert(b =~= uleb128(pi as nat) + (uleb128(mk.lamp as nat) + rest));
        crate::wire::lemma_uleb_roundtrip(pi as u64, uleb128(mk.lamp as nat) + rest);
        crate::wire::lemma_uleb_roundtrip(mk.lamp as u64, rest);
        assert((pi as usize) as int == pi);
        let v = if del.contains(k) {
            None
        } else {
            Some(vals[k])
        };
        assert(v == mk.value);
        let reg = MapValueView { value: v, lamp: mk.lamp, peer: mk.peer };
        assert(reg == mk);
        let s1 = insert_spec(s, k, mk);
        assert(decode_one(s, k, v, ps, b) == Some((s1, rest)));
        assert(!(vals.contains_key(k) && del.contains(k)));
        assert(decode_key(s, k, vals, del, ps, b) == Some((s1, rest)));
        let ks2 = ks.drop_first();
        assert forall|i: int| 0 <= i < ks2.len() implies m.contains_key(#[trigger] ks2[i]) && ps.contains(m[ks2[i]].peer) by {
            assert(ks2[i] == ks[i + 1]);
        }
        assert forall|a: int, b: int| 0 <= a < b < ks2.len() implies #[trigger] ks2[a] != #[trigger] ks2[b] by {
            assert(ks2[a] == ks[a + 1] && ks2[b] == ks[b + 1]);
        }
        assert forall|i: int| 0 <= i < ks2.len() implies !s1.map.contains_key(#[trigger] ks2[i]) by {
            assert(ks2[i] == ks[i + 1]);
            assert(ks[0] != ks[i + 1]);
        }
        assert(!s.map.contains_key(k)) by {
            assert(!s.map.contains_key(ks[0]));
        }
        lemma_decode_keys(s1, ks2, m, ps, t);
        assert(pair_bytes(ks, m, ps) + t =~= b);
        assert(decode_keys(s, ks, vals, del, ps, b) == decode_keys(s1, ks2, vals, del, ps, rest));
        let (s2, r) = decode_keys(s1, ks2, vals, del, ps, rest)->0;
        assert(s1.map == s.map.insert(k, mk));
        assert forall|x: Seq<char>| #[trigger] ks.contains(x) <==> x == k || ks2.contains(x) by {
            if ks.contains(x) {
                let i = choose|i: int| 0 <= i < ks.len() && ks[i] == x;
                if i > 0 {
                    assert(ks2[i - 1] == x);
                }
            }
            if ks2.contains(x) {
                let i = choose|i: int| 0 <= i < ks2.len() && ks2[i] == x;
                assert(ks[i + 1] == x);
            }
            if x == k {
                assert(ks[0] == x);
            }
        }
        assert forall|x: Seq<char>| #[trigger] s2.map.contains_key(x) implies s2.map[x] == if ks.contains(x) {
            m[x]
        } else {
            s.map[x]
        } by {
            if !ks2.contains(x) {
                assert(s1.map.contains_key(x));
                if x == k {
                    assert(ks.contains(x));
                } else {
                    assert(s.map.contains_key(x));
                }
            }
        }
        assert forall|c: ContainerIdView| #[trigger] s2.children.contains_key(c) <==> s.children.contains_key(c) || exists|i: int|
            0 <= i < ks.len() && m[ks[i]].container() == Some(c) by {
            if exists|i: int| 0 <= i < ks2.len() && m[ks2[i]].container() == Some(c) {
                let i = choose|i: int| 0 <= i < ks2.len() && m[ks2[i]].container() == Some(c);
                assert(ks[i + 1] == ks2[i]);
            }
            if exists|i: int| 0 <= i < ks.len() && m[ks[i]].container() == Some(c) {
                let i = choose|i: int| 0 <= i < ks.len() && m[ks[i]].container() == Some(c);
                if i > 0 {
                    assert(ks2[i - 1] == ks[i]);
                } else {
                    assert(s1.children.contains_key(c));
                }
            }
        }
    }
}

/// Some register of `m` holds container `c`.
pub open spec fn holds_container(m: Map<Seq<char>, MapValueView>, c: ContainerIdView) -> bool {
    exists|k: Seq<char>| m.contains_key(k) && m[k].container() == Some(c)
}

/// The keys whose register in `m` is deleted.
pub open spec fn deleted_keys(m: Map<Seq<char>, MapValueView>) -> Set<Seq<char>> {
    Set::new(|k: Seq<char>| m.contains_key(k) && m[k].value is None)
}

/// Reading back the snapshot of `m` gives the registers of `m`.
#[verifier::spinoff_prover]
#[verifier::rlimit(50)]
pub proof fn lemma_decode_meta(idx: ContainerIdx, m: Map<Seq<char>, MapValueView>, t: Seq<u8>)
    requires
        enumerates(sorted_key_seq(m.dom()), m.dom()),
        (snapshot_meta(m) + t).len() <= usize::MAX,
    ensures
        ({
            let ks = sorted_key_seq(m.dom());
            let ps = first_seen(peers_in(ks, m));
            let rest = uleb128(ps.len()) + le_concat(ps) + pair_bytes(ks, m, ps) + t;
            &&& snapshot_meta(m) + t == strings_then(deleted_in(ks, m), rest)
            &&& decode_tail(idx, present_values(m), deleted_in(ks, m), rest) matches Some(st) && st.map == m && st.idx == idx
                && st.tombstones == Map::<Seq<char>, IdLp>::empty() && (forall|c: ContainerIdView|
                #[trigger] st.children.contains_key(c) <==> holds_container(m, c))
        }),
{
    let ks = sorted_key_seq(m.dom());
    let ps = first_seen(peers_in(ks, m));
    let pairs = pair_bytes(ks, m, ps) + t;
    let rest = uleb128(ps.len()) + le_concat(ps) + pair_bytes(ks, m, ps) + t;
    assert(snapshot_meta(m) + t =~= strings_then(deleted_in(ks, m), rest));
    lemma_le_concat_len(ps);
    assert(rest.len() >= 8 * ps.len());
    assert(rest =~= uleb128(ps.len() as u64 as nat) + (le_concat(ps) + pairs));
    crate::wire::lemma_uleb_roundtrip(ps.len() as u64, le_concat(ps) + pairs);
    lemma_take_peers(ps, pairs);
    assert((ps.len() as usize) as nat == ps.len());
    let vals = present_values(m);
    let dset = deleted_in(ks, m).to_set();
    lemma_deleted_in(ks, m);
    assert(dset =~= deleted_keys(m)) by {
        assert forall|k: Seq<char>| dset.contains(k) <==> deleted_keys(m).contains(k) by {
            assert(ks.contains(k) <==> m.dom().contains(k));
        }
    }
    assert(vals.dom().union(dset) =~= m.dom());
    lemma_first_seen(peers_in(ks, m));
    assert forall|i: int| 0 <= i < ks.len() implies m.contains_key(#[trigger] ks[i]) && ps.contains(m[ks[i]].peer) by {
        assert(ks.contains(ks[i]));
        assert(peers_in(ks, m)[i] == m[ks[i]].peer);
        assert(peers_in(ks, m).contains(m[ks[i]].peer));
    }
    assert forall|a: int, b: int| 0 <= a < b < ks.len() implies #[trigger] ks[a] != #[trigger] ks[b] by {
        lemma_key_order(ks[a], ks[b], ks[b]);
    }
    lemma_decode_keys(new_map_view(idx), ks, m, ps, t);
    let st = (decode_keys(new_map_view(idx), ks, vals, dset, ps, pairs)->0).0;
    assert forall|c: ContainerIdView| #[trigger] st.children.contains_key(c) <==> holds_container(m, c) by {
        if holds_container(m, c) {
            let k = choose|k: Seq<char>| m.contains_key(k) && m[k].container() == Some(c);
            assert(ks.contains(k));
            let i = choose|i: int| 0 <= i < ks.len() && ks[i] == k;
        }
        if st.children.contains_key(c) {
            let i = choose|i: int| 0 <= i < ks.len() && m[ks[i]].container() == Some(c);
            assert(ks.contains(ks[i]));
        }
    }
    assert(st.map =~= m) by {
        assert forall|k: Seq<char>| #[trigger] st.map.contains_key(k) <==> m.contains_key(k) by {
            assert(ks.contains(k) <==> m.dom().contains(k));
        }
        assert forall|k: Seq<char>| #[trigger] st.map.contains_key(k) implies st.map[k] == m[k] by {
            assert(ks.contains(k) <==> m.dom().contains(k));
        }
    }
}

/// The entries of a dictionary value; none for another value.
pub open spec fn dict_entries(v: LoroValue) -> Seq<(String, LoroValue)> {
    match v {
        LoroValue::Dict(d) => d@,
        _ => Seq::empty(),
    }
}

/// No key occurs twice among the entries of `dict`.
fn has_unique_keys(dict: &Vec<(String, LoroValue)>) -> (r: bool)
    ensures
        r == unique_keys(dict@),
{
    let mut i: usize = 0;
    while i < dict.len()
        invariant
            i <= dict@.len(),
            forall|a: int, b: int| 0 <= a < b < dict@.len() && a < i ==> #[trigger] dict@[a].0@ != #[trigger] dict@[b].0@,
        decreases dict@.len() - i,
    {
        let mut j: usize = i + 1;
        while j < dict.len()
            invariant
                i < dict@.len(),
                i + 1 <= j <= dict@.len(),
                forall|a: int, b: int| 0 <= a < b < dict@.len() && a < i ==> #[trigger] dict@[a].0@ != #[trigger] dict@[b].0@,
                forall|b: int| i < b < j ==> dict@[i as int].0@ != #[trigger] dict@[b].0@,
            decreases dict@.len() - j,
        {
            match compare_keys(dict[i].0.as_str(), dict[j].0.as_str()) {
                KeyOrder::Equal => {
                    return false;
                },
                _ => {},
            }
            j = j + 1;
        }
        i = i + 1;
    }
    true
}

/// The value of key `k` among the entries of a dictionary.
fn dict_lookup<'a>(dict: &'a Vec<(String, LoroValue)>, k: &str) -> (r: Option<&'a LoroValue>)
    requires
        unique_keys(dict@),
    ensures
        match r {
            Some(v) => seq_map(dict@).contains_key(k@) && seq_map(dict@)[k@] == v@,
            None => !seq_map(dict@).contains_key(k@),
        },
{
    proof {
        lemma_seq_map(dict@);
    }
    let mut i: usize = 0;
    while i < dict.len()
        invariant
            i <= dict@.len(),
            unique_keys(dict@),
            forall|j: int| 0 <= j < i ==> dict@[j].0@ != k@,
        decreases dict@.len() - i,
    {
        match compare_keys(dict[i].0.as_str(), k) {
            KeyOrder::Equal => {
                proof {
                    lemma_seq_map(dict@);
                }
                assert(seq_map(dict@).contains_key(dict@[i as int].0@));
                return Some(&dict[i].1);
            },
            _ => {},
        }
        i = i + 1;
    }
    proof {
        lemma_seq_map(dict@);
        if seq_map(dict@).contains_key(k@) {
            let j = choose|j: int| 0 <= j < dict@.len() && dict@[j].0@ == k@;
        }
    }
    None
}

/// Read `n` peers of eight little-endian bytes each.
fn read_peers<'a>(bytes: &'a [u8], n: usize) -> (r: Option<(Vec<u64>, &'a [u8])>)
    ensures
        match r {
            Some((ps, rest)) => take_peers(bytes@, n as nat) == Some((ps@, rest@)),
            None => take_peers(bytes@, n as nat) is None,
        },
{
    let mut peers: Vec<u64> = Vec::new();
    let mut cur = bytes;
    let mut i: usize = 0;
    assert(peers@ + Seq::<u64>::empty() =~= peers@);
    while i < n
        invariant
            i <= n,
            take_peers(bytes@, n as nat) == match take_peers(cur@, (n - i) as nat) {
                Some((qs, r)) => Some((peers@ + qs, r)),
                None => None,
            },
        decreases n - i,
    {
        if cur.len() < 8 {
            return None;
        }
        let p = read_le_u64(cur);
        let (_, tail) = cur.split_at(8);
        let ghost before = peers@;
        assert(tail@ =~= cur@.skip(8));
        peers.push(p);
        proof {
            match take_peers(tail@, (n - i - 1) as nat) {
                Some((qs, r)) => {
                    assert(before + (seq![p] + qs) =~= peers@ + qs);
                },
                None => {},
            }
        }
        cur = tail;
        i = i + 1;
    }
    Some((peers, cur))
}

/// Read one peer index and one Lamport stamp for key `key` and write its
/// register with the value `value`.
fn decode_one_into<'a>(
    state: &mut MapState,
    key: &String,
    value: &Option<LoroValue>,
    peers: &Vec<u64>,
    bytes: &'a [u8],
) -> (r: Option<&'a [u8]>)
    requires
        old(state).wf(),
    ensures
        final(state).wf(),
        match r {
            Some(rest) => decode_one(old(state)@, key@, opt_value_view(*value), peers@, bytes@) == Some((final(state)@, rest@)),
            None => decode_one(old(state)@, key@, opt_value_view(*value), peers@, bytes@) is None,
        },
{
    let (pi, r1) = match read_uleb128(bytes) {
        Some(x) => x,
        None => {
            return None;
        },
    };
    let (lamp, r2) = match read_uleb128(r1) {
        Some(x) => x,
        None => {
            return None;
        },
    };
    let pidx = pi as usize;
    if pidx >= peers.len() {
        return None;
    }
    let v = match value {
        Some(x) => Some(x.clone_value()),
        None => None,
    };
    let _ = state.insert(key.clone(), MapValue { value: v, lamp: lamp as u32, peer: peers[pidx] });
    Some(r2)
}

/// Read the snapshot of container `idx` after its value section, given
/// the present values `dict`: nothing where reading panics (numbers cut
/// short, an index naming no peer).
fn decode_parts(idx: ContainerIdx, dict: &Vec<(String, LoroValue)>, bytes: &[u8]) -> (r: Option<Result<MapState, LoroError>>)
    requires
        unique_keys(dict@),
    ensures
        match postcard_take_strings(bytes@) {
            None => r matches Some(Err(LoroError::DecodeError(msg))) && msg@ == "Decode map keys_with_none_value failed"@,
            Some((deleted, rest)) => match decode_tail(idx, seq_map(dict@), deleted, rest) {
                None => r is None,
                Some(sv) => r matches Some(Ok(st)) && st.wf() && st@ == sv,
            },
        },
        forall|ks: Seq<Seq<char>>, tail: Seq<u8>|
            bytes@ == #[trigger] strings_then(ks, tail) ==> postcard_take_strings(bytes@) == Some((ks, tail)),
        usize::BITS == 64 ==> postcard_take_strings(bytes@) == wire_strings_take(bytes@),
{
    let ghost vals = seq_map(dict@);
    let taken = take_postcard_strings(bytes);
    assert forall|ks: Seq<Seq<char>>, tail: Seq<u8>|
        bytes@ == #[trigger] strings_then(ks, tail) implies postcard_take_strings(bytes@) == Some((ks, tail)) by {
        let x = (ks, tail);
        assert(strings_then(x.0, x.1) == strings_then(ks, tail));
    }
    let (deleted, rest) = match taken {
        Some(x) => x,
        None => {
            return Some(Err(LoroError::DecodeError(String::from_str("Decode map keys_with_none_value failed"))));
        },
    };
    match decode_snapshot_tail(idx, dict, &deleted, rest) {
        Some(st) => Some(Ok(st)),
        None => None,
    }
}

/// Read the snapshot of container `idx` after its deleted keys: `dict`
/// holds the present values, `deleted` the deleted keys, and `rest` the
/// bytes after them (the number of peers, the peers, then the register of
/// every key in key order). Nothing where reading panics: the bytes are
/// cut short or an index names no peer.
pub fn decode_snapshot_tail(idx: ContainerIdx, dict: &Vec<(String, LoroValue)>, deleted: &Vec<String>, rest: &[u8]) -> (r: Option<MapState>)
    requires
        unique_keys(dict@),
    ensures
        match decode_tail(idx, seq_map(dict@), strings_view(deleted@), rest@) {
            None => r is None,
            Some(sv) => r matches Some(st) && st.wf() && st@ == sv,
        },
{
    let ghost vals = seq_map(dict@);
    let ghost dseq = strings_view(deleted@);
    let ghost dset = dseq.to_set();
    // Every key of the snapshot, with whether it is deleted.
    let mut kinds: StrMap<bool> = StrMap::new();
    let mut i: usize = 0;
    proof {
        lemma_seq_map(dict@);
    }
    while i < dict.len()
        invariant
            i <= dict@.len(),
            kinds.wf(),
            forall|k: Seq<char>| #[trigger] kinds@.contains_key(k) <==> exists|j: int| 0 <= j < i && dict@[j].0@ == k,
            forall|k: Seq<char>| #[trigger] kinds@.contains_key(k) ==> !kinds@[k],
        decreases dict@.len() - i,
    {
        let ghost before = kinds@;
        let _ = kinds.insert(dict[i].0.clone(), false);
        assert forall|k: Seq<char>| #[trigger] kinds@.contains_key(k) <==> exists|j: int| 0 <= j < i + 1 && dict@[j].0@ == k by {
            if exists|j: int| 0 <= j < i + 1 && dict@[j].0@ == k {
                let j = choose|j: int| 0 <= j < i + 1 && dict@[j].0@ == k;
                if j < i {
                    assert(before.contains_key(k));
                }
            }
            if before.contains_key(k) {
                let j = choose|j: int| 0 <= j < i && dict@[j].0@ == k;
            }
        }
        i = i + 1;
    }
    assert forall|k: Seq<char>| #[trigger] kinds@.contains_key(k) <==> vals.contains_key(k) by {
        if vals.contains_key(k) {
            let j = choose|j: int| 0 <= j < dict@.len() && dict@[j].0@ == k;
        }
        if kinds@.contains_key(k) {
            let j = choose|j: int| 0 <= j < dict@.len() && dict@[j].0@ == k;
            assert(vals.contains_key(dict@[j].0@));
        }
    }
    let mut i: usize = 0;
    while i < deleted.len()
        invariant
            i <= deleted@.len(),
            kinds.wf(),
            dseq == strings_view(deleted@),
            forall|k: Seq<char>| #[trigger] kinds@.contains_key(k) <==> vals.contains_key(k) || exists|j: int| 0 <= j < i && dseq[j] == k,
            forall|k: Seq<char>| #[trigger] kinds@.contains_key(k) ==> (kinds@[k] <==> exists|j: int| 0 <= j < i && dseq[j] == k),
        decreases deleted@.len() - i,
    {
        let ghost before = kinds@;
        let _ = kinds.insert(deleted[i].clone(), true);
        assert(dseq[i as int] == deleted@[i as int]@);
        assert forall|k: Seq<char>| #[trigger] kinds@.contains_key(k) <==> vals.contains_key(k) || exists|j: int| 0 <= j < i + 1 && dseq[j] == k by {
            if exists|j: int| 0 <= j < i + 1 && dseq[j] == k {
                let j = choose|j: int| 0 <= j < i + 1 && dseq[j] == k;
                if j < i {
                    assert(before.contains_key(k));
                }
            }
        }
        assert forall|k: Seq<char>| #[trigger] kinds@.contains_key(k) implies (kinds@[k] <==> exists|j: int| 0 <= j < i + 1 && dseq[j] == k) by {
            if k != dseq[i as int] {
                assert(before.contains_key(k));
                if exists|j: int| 0 <= j < i + 1 && dseq[j] == k {
                    let j = choose|j: int| 0 <= j < i + 1 && dseq[j] == k;
                    assert(j < i);
                }
            }
        }
        i = i + 1;
    }
    assert forall|k: Seq<char>| dset.contains(k) <==> exists|j: int| 0 <= j < dseq.len() && dseq[j] == k by {
        if dset.contains(k) {
            assert(dseq.contains(k));
        }
        if exists|j: int| 0 <= j < dseq.len() && dseq[j] == k {
            let j = choose|j: int| 0 <= j < dseq.len() && dseq[j] == k;
            assert(dseq.contains(k));
        }
    }
    // The peers.
    let (n, after_count) = match read_uleb128(rest) {
        Some(x) => x,
        None => {
            return None;
        },
    };
    let (peers, after_peers) = match read_peers(after_count, n as usize) {
        Some(x) => x,
        None => {
            return None;
        },
    };
    // The registers, key by key in key order.
    let entries = kinds.as_slice();
    let ghost ks = entries@.map_values(|e: (String, bool)| e.0@);
    let ghost all = vals.dom().union(dset);
    proof {
        kinds.lemma_view();
        assert(enumerates(ks, all)) by {
            assert forall|k: Seq<char>| #[trigger] ks.contains(k) <==> all.contains(k) by {
                if ks.contains(k) {
                    let j = choose|j: int| 0 <= j < ks.len() && ks[j] == k;
                    assert(kinds@.contains_key(entries@[j].0@));
                }
                if all.contains(k) {
                    assert(kinds@.contains_key(k));
                    let j = choose|j: int| 0 <= j < entries@.len() && entries@[j].0@ == k;
                    assert(ks[j] == k);
                }
            }
        }
        lemma_enumeration_unique(ks, sorted_key_seq(all), all);
    }
    assert forall|l: int| 0 <= l < ks.len() implies (#[trigger] entries@[l]).1 == dset.contains(ks[l]) && all.contains(ks[l]) by {
        assert(kinds@.contains_key(entries@[l].0@));
        assert(ks[l] == entries@[l].0@);
    }
    let ghost whole = decode_tail(idx, vals, dseq, rest@);
    assert(whole == match decode_keys(new_map_view(idx), ks, vals, dset, peers@, after_peers@) {
        Some((st, _)) => Some(st),
        None => None,
    });
    let mut st = MapState::new(idx);
    assert(st@ == new_map_view(idx));
    let mut cur = after_peers;
    let mut i: usize = 0;
    assert(ks.skip(0) =~= ks);
    while i < entries.len()
        invariant
            i <= entries@.len(),
            ks.len() == entries@.len(),
            forall|l: int| 0 <= l < ks.len() ==> #[trigger] ks[l] == entries@[l].0@,
            forall|l: int| 0 <= l < ks.len() ==> (#[trigger] entries@[l]).1 == dset.contains(ks[l]),
            forall|l: int| 0 <= l < ks.len() ==> #[trigger] all.contains(ks[l]),
            all == vals.dom().union(dset),
            vals == seq_map(dict@),
            unique_keys(dict@),
            st.wf(),
            decode_keys(new_map_view(idx), ks, vals, dset, peers@, after_peers@) == decode_keys(st@, ks.skip(i as int), vals, dset, peers@, cur@),
            whole == decode_tail(idx, vals, dseq, rest@),
            dseq == strings_view(deleted@),
            whole == match decode_keys(new_map_view(idx), ks, vals, dset, peers@, after_peers@) {
                Some((st, _)) => Some(st),
                None => None,
            },
        decreases entries@.len() - i,
    {
        let key = &entries[i].0;
        let is_deleted = entries[i].1;
        let found = dict_lookup(dict, key.as_str());
        let value: Option<LoroValue> = if is_deleted {
            None
        } else {
            match found {
                Some(v) => Some(v.clone_value()),
                None => None,
            }
        };
        let ghost k = ks[i as int];
        assert(ks.skip(i as int)[0] == k);
        assert(ks.skip(i as int).drop_first() =~= ks.skip(i + 1));
        assert(entries@[i as int].1 == dset.contains(k));
        assert(all.contains(k));
        proof {
            if !dset.contains(k) {
                assert(vals.contains_key(k));
            }
        }
        assert(opt_value_view(value) == if dset.contains(k) { None } else { Some(vals[k]) });
        assert(found.is_some() == vals.contains_key(k));
        let ghost s0 = st@;
        match decode_one_into(&mut st, key, &value, &peers, cur) {
            Some(r1) => {
                cur = r1;
            },
            None => {
                return None;
            },
        }
        if is_deleted && found.is_some() {
            match decode_one_into(&mut st, key, &value, &peers, cur) {
                Some(r1) => {
                    cur = r1;
                },
                None => {
                    return None;
                },
            }
        }
        i = i + 1;
    }
    assert(ks.skip(ks.len() as int) =~= Seq::<Seq<char>>::empty());
    Some(st)
}

impl MapState {
    /// Read the snapshot of container `idx` after its value section, given
    /// the present values `value` (a dictionary, as the value section
    /// holds): the deleted keys, the peers, then the register of every key
    /// in key order. A key that is both present and deleted is deleted. The
    /// deleted keys that cannot be read are a decode error.
    pub fn decode_snapshot_fast(idx: ContainerIdx, value: LoroValue, bytes: &[u8]) -> (r: Result<MapState, LoroError>)
        requires
            value is Dict,
            unique_keys(dict_entries(value)),
            tail_readable(idx, seq_map(dict_entries(value)), bytes@),
        ensures
            match postcard_take_strings(bytes@) {
                None => r matches Err(LoroError::DecodeError(msg)) && msg@ == "Decode map keys_with_none_value failed"@,
                Some((deleted, rest)) => r matches Ok(st) && st.wf() && (Some(st@) == decode_tail(
                    idx,
                    seq_map(dict_entries(value)),
                    deleted,
                    rest,
                )),
            },
            usize::BITS == 64 ==> postcard_take_strings(bytes@) == wire_strings_take(bytes@),
    {
        match value {
            LoroValue::Dict(d) => match decode_parts(idx, &d, bytes) {
                Some(r) => r,
                None => {
                    proof {
                        assert(false);
                    }
                    Err(LoroError::DecodeError(String::from_str("Decode map keys_with_none_value failed")))
                },
            },
            _ => {
                proof {
                    assert(false);
                }
                Err(LoroError::DecodeError(String::from_str("Decode map keys_with_none_value failed")))
            },
        }
    }

    /// `decode_snapshot_fast` where it does not panic: nothing when `value`
    /// is not a dictionary without repeated keys, or the bytes after the
    /// deleted keys cannot be read. A snapshot written by
    /// `encode_snapshot_fast`, after the dictionary of its present values,
    /// reads back to the registers it was written from.
    pub fn try_decode_snapshot_fast(idx: ContainerIdx, value: LoroValue, bytes: &[u8]) -> (r: Option<Result<MapState, LoroError>>)
        ensures
            r is Some <==> (value is Dict && unique_keys(dict_entries(value)) && tail_readable(
                idx,
                seq_map(dict_entries(value)),
                bytes@,
            )),
            r matches Some(x) ==> match postcard_take_strings(bytes@) {
                None => x matches Err(LoroError::DecodeError(msg)) && msg@ == "Decode map keys_with_none_value failed"@,
                Some((deleted, rest)) => x matches Ok(st) && st.wf() && (Some(st@) == decode_tail(
                    idx,
                    seq_map(dict_entries(value)),
                    deleted,
                    rest,
                )),
            },
            forall|m: Map<Seq<char>, MapValueView>|
                #![trigger is_snapshot_of(m, bytes@)]
                is_snapshot_of(m, bytes@) && value is Dict && unique_keys(dict_entries(value)) && seq_map(
                    dict_entries(value),
                ) == present_values(m) ==> (r matches Some(Ok(st)) && st@.map == m && st@.idx == idx && st@.tombstones == Map::<
                    Seq<char>,
                    IdLp,
                >::empty() && (forall|c: ContainerIdView| #[trigger] st@.children.contains_key(c) <==> holds_container(m, c))),
    {
        let ok = match &value {
            LoroValue::Dict(d) => {
                if has_unique_keys(d) {
                    match decode_parts(idx, d, bytes) {
                        Some(_) => true,
                        None => false,
                    }
                } else {
                    false
                }
            },
            _ => false,
        };
        proof {
            assert(bytes@.len() == bytes.len());
            assert forall|m: Map<Seq<char>, MapValueView>|
                #![trigger is_snapshot_of(m, bytes@)]
                is_snapshot_of(m, bytes@) && value is Dict && unique_keys(dict_entries(value)) && seq_map(
                    dict_entries(value),
                ) == present_values(m) implies ok && (match postcard_take_strings(bytes@) {
                        None => false,
                        Some((deleted, rest)) => decode_tail(idx, present_values(m), deleted, rest) matches Some(sv) && sv.map == m
                            && sv.idx == idx && sv.tombstones == Map::<Seq<char>, IdLp>::empty() && (forall|c: ContainerIdView|
                            #[trigger] sv.children.contains_key(c) <==> holds_container(m, c)),
                    }) by {
                let t = choose|t: Seq<u8>| bytes@ == snapshot_meta(m) + t;
                lemma_decode_meta(idx, m, t);
            }
        }
        if ok {
            Some(MapState::decode_snapshot_fast(idx, value, bytes))
        } else {
            None
        }
    }
}

impl MapState {
    /// Append the snapshot of the registers after the value section, which
    /// the caller writes first: the deleted keys, the peers, and the peer
    /// index and Lamport stamp of every key in key order.
    pub fn encode_snapshot_fast(&self, out: &mut Vec<u8>)
        requires
            self.wf(),
        ensures
            final(out)@ == old(out)@ + snapshot_meta(self@.map),
            enumerates(sorted_key_seq(self@.map.dom()), self@.map.dom()),
    {
        let ghost m = self@.map;
        let entries = self.iter();
        let ghost ks = entries@.map_values(|e: (String, MapValue)| e.0@);
        proof {
            lemma_sorted_unique(entries@);
            lemma_seq_map(entries@);
            assert(enumerates(ks, m.dom())) by {
                assert forall|k: Seq<char>| #[trigger] ks.contains(k) <==> m.dom().contains(k) by {
                    if ks.contains(k) {
                        let i = choose|i: int| 0 <= i < ks.len() && ks[i] == k;
                        assert(seq_map(entries@).contains_key(entries@[i].0@));
                    }
                    if m.dom().contains(k) {
                        let i = choose|i: int| 0 <= i < entries@.len() && entries@[i].0@ == k;
                        assert(ks[i] == k);
                    }
                }
            }
            lemma_enumeration_unique(ks, sorted_key_seq(m.dom()), m.dom());
        }
        let ghost ps_all = first_seen(peers_in(ks, m));
        assert(forall|i: int| 0 <= i < entries@.len() ==> #[trigger] m[ks[i]] == entries@[i].1@) by {
            assert forall|i: int| 0 <= i < entries@.len() implies #[trigger] m[ks[i]] == entries@[i].1@ by {
                assert(seq_map(entries@).contains_key(entries@[i].0@));
            }
        }
        // The deleted keys.
        let mut none_keys: Vec<String> = Vec::new();
        let mut i: usize = 0;
        while i < entries.len()
            invariant
                i <= entries@.len(),
                ks.len() == entries@.len(),
                forall|l: int| 0 <= l < ks.len() ==> #[trigger] ks[l] == entries@[l].0@,
                forall|l: int| 0 <= l < entries@.len() ==> #[trigger] m[ks[l]] == entries@[l].1@,
                strings_view(none_keys@) == deleted_in(ks.take(i as int), m),
            decreases entries@.len() - i,
        {
            let ghost before = none_keys@;
            assert(ks.take(i + 1).drop_last() =~= ks.take(i as int));
            assert(ks.take(i + 1).last() == ks[i as int]);
            if entries[i].1.value.is_none() {
                none_keys.push(entries[i].0.clone());
                assert(strings_view(none_keys@) =~= strings_view(before) + seq![ks[i as int]]);
            } else {
                assert(strings_view(none_keys@) =~= strings_view(before) + Seq::<Seq<char>>::empty());
            }
            i = i + 1;
        }
        assert(ks.take(ks.len() as int) =~= ks);
        write_postcard_strings(out, &none_keys);
        // The peers, in the order in which the keys first name them.
        let mut peers: Vec<u64> = Vec::new();
        let mut i: usize = 0;
        while i < entries.len()
            invariant
                i <= entries@.len(),
                ks.len() == entries@.len(),
                forall|l: int| 0 <= l < entries@.len() ==> #[trigger] m[ks[l]] == entries@[l].1@,
                peers@ == first_seen(peers_in(ks.take(i as int), m)),
            decreases entries@.len() - i,
        {
            let p = entries[i].1.peer;
            assert(peers_in(ks.take(i + 1), m).drop_last() =~= peers_in(ks.take(i as int), m));
            assert(peers_in(ks.take(i + 1), m).last() == p);
            match index_of_peer(&peers, p) {
                Some(_) => {},
                None => {
                    peers.push(p);
                },
            }
            i = i + 1;
        }
        assert(ks.take(ks.len() as int) =~= ks);
        assert(peers@ == ps_all);
        proof {
            lemma_first_seen(peers_in(ks, m));
        }
        write_uleb128(out, peers.len() as u64);
        let mut j: usize = 0;
        let ghost base = out@;
        while j < peers.len()
            invariant
                j <= peers@.len(),
                out@ == base + le_concat(peers@.take(j as int)),
            decreases peers@.len() - j,
        {
            assert(peers@.take(j + 1).drop_last() =~= peers@.take(j as int));
            push_le_bytes(out, peers[j]);
            assert(out@ =~= base + le_concat(peers@.take(j + 1)));
            j = j + 1;
        }
        assert(peers@.take(peers@.len() as int) =~= peers@);
        // The peer index and the Lamport stamp of every key.
        let ghost base2 = out@;
        let mut i: usize = 0;
        while i < entries.len()
            invariant
                i <= entries@.len(),
                ks.len() == entries@.len(),
                forall|l: int| 0 <= l < entries@.len() ==> #[trigger] m[ks[l]] == entries@[l].1@,
                peers@ == ps_all,
                ps_all == first_seen(peers_in(ks, m)),
                forall|x: u64| #[trigger] ps_all.contains(x) <==> peers_in(ks, m).contains(x),
                forall|a: int, b: int| 0 <= a < b < ps_all.len() ==> #[trigger] ps_all[a] != #[trigger] ps_all[b],
                out@ == base2 + pair_bytes(ks.take(i as int), m, ps_all),
            decreases entries@.len() - i,
        {
            let p = entries[i].1.peer;
            assert(peers_in(ks, m)[i as int] == p);
            assert(peers_in(ks, m).contains(p));
            let k = index_of_peer(&peers, p).unwrap();
            proof {
                lemma_position(ps_all, k as int);
            }
            assert(ks.take(i + 1).drop_last() =~= ks.take(i as int));
            assert(ks.take(i + 1).last() == ks[i as int]);
            write_uleb128(out, k as u64);
            write_uleb128(out, entries[i].1.lamp as u64);
            assert(out@ =~= base2 + pair_bytes(ks.take(i + 1), m, ps_all));
            i = i + 1;
        }
        assert(ks.take(ks.len() as int) =~= ks);
    }
}

} // verus!

//! The state of a map container: a last-writer-wins register per key, the
//! table of child containers, and the tombstones of deleted mergeable keys.

use vstd::prelude::*;
use crate::child_table::{lists_mergeable_children, mergeable_under, without_mergeable_under, ChildTable};
use crate::str_map::{seq_map, sorted_keys, StrMap};
use crate::types::{idlp_lt, ContainerID, ContainerIdView, ContainerIdx, IdLp, PeerID};
use crate::value::{LoroValue, LoroValueView, MapValue, MapValueView};

verus! {

/// The keys whose register holds a value.
pub open spec fn live_keys(m: Map<Seq<char>, MapValueView>) -> Set<Seq<char>> {
    m.dom().filter(|k: Seq<char>| m[k].value is Some)
}

/// The values of the keys that hold one.
pub open spec fn present_values(m: Map<Seq<char>, MapValueView>) -> Map<Seq<char>, LoroValueView> {
    Map::new(|k: Seq<char>| m.contains_key(k) && m[k].value is Some, |k: Seq<char>| m[k].value->0)
}

/// The mathematical value of a [`MapState`].
pub struct MapStateView {
    /// The index of this container in the document.
    pub idx: ContainerIdx,
    /// The register of every key ever written, deleted keys included.
    pub map: Map<Seq<char>, MapValueView>,
    /// Child containers and the key each hangs under.
    pub children: Map<ContainerIdView, Seq<char>>,
    /// For keys whose mergeable child was deleted, the stamp of the delete.
    pub tombstones: Map<Seq<char>, IdLp>,
}

/// The state after writing register `v` to key `k`: the container the key
/// held before, if any, is unregistered, then the new value's container is
/// registered under `k`. A key written again with the container it already
/// holds keeps it registered.
pub open spec fn insert_spec(s: MapStateView, k: Seq<char>, v: MapValueView) -> MapStateView {
    let removed = if s.map.contains_key(k) && s.map[k].container() is Some {
        s.children.remove(s.map[k].container()->0)
    } else {
        s.children
    };
    let children = match v.container() {
        Some(c) => removed.insert(c, k),
        None => removed,
    };
    MapStateView { map: s.map.insert(k, v), children, ..s }
}

/// The state after forgetting key `k`, and the container it held.
pub open spec fn remove_spec(s: MapStateView, k: Seq<char>) -> MapStateView {
    let children = if s.map.contains_key(k) && s.map[k].container() is Some {
        s.children.remove(s.map[k].container()->0)
    } else {
        s.children
    };
    MapStateView { map: s.map.remove(k), children, ..s }
}

/// The tombstone of `k` after recording a delete stamped `idlp`: the later
/// of the two stamps.
pub open spec fn tombstone_after(t: Map<Seq<char>, IdLp>, k: Seq<char>, idlp: IdLp) -> Map<
    Seq<char>,
    IdLp,
> {
    if t.contains_key(k) && !idlp_lt(t[k], idlp) {
        t
    } else {
        t.insert(k, idlp)
    }
}

pub proof fn lemma_live_keys_insert(m: Map<Seq<char>, MapValueView>, k: Seq<char>, v: MapValueView)
    requires
        m.dom().finite(),
    ensures
        live_keys(m).finite(),
        live_keys(m.insert(k, v)) == (if v.value is Some {
            live_keys(m).insert(k)
        } else {
            live_keys(m).remove(k)
        }),
{
    assert(live_keys(m) =~= m.dom().intersect(Set::new(|x: Seq<char>| m[x].value is Some)));
    let n = m.insert(k, v);
    if v.value is Some {
        assert(live_keys(n) =~= live_keys(m).insert(k));
    } else {
        assert(live_keys(n) =~= live_keys(m).remove(k));
    }
}

pub proof fn lemma_live_keys_remove(m: Map<Seq<char>, MapValueView>, k: Seq<char>)
    requires
        m.dom().finite(),
    ensures
        live_keys(m).finite(),
        live_keys(m.remove(k)) == live_keys(m).remove(k),
{
    assert(live_keys(m) =~= m.dom().intersect(Set::new(|x: Seq<char>| m[x].value is Some)));
    assert(live_keys(m.remove(k)) =~= live_keys(m).remove(k));
}

/// The state of a map container.
#[derive(Debug)]
pub struct MapState {
    idx: ContainerIdx,
    map: StrMap<MapValue>,
    child_containers: ChildTable,
    mergeable_tombstones: StrMap<IdLp>,
    size: usize,
}

impl View for MapState {
    type V = MapStateView;

    closed spec fn view(&self) -> MapStateView {
        MapStateView {
            idx: self.idx,
            map: self.map@,
            children: self.child_containers@,
            tombstones: self.mergeable_tombstones@,
        }
    }
}

impl MapState {
    /// The tables are well formed and the size counts the keys that hold a
    /// value.
    pub closed spec fn wf(&self) -> bool {
        &&& self.map.wf()
        &&& self.child_containers.wf()
        &&& self.mergeable_tombstones.wf()
        &&& self.size == live_keys(self.map@).len()
    }

    /// The registers in key order.
    pub closed spec fn entry_seq(&self) -> Seq<(String, MapValue)> {
        self.map.entry_seq()
    }

    /// Facts that every well-formed state has.
    pub proof fn lemma_wf(&self)
        requires
            self.wf(),
        ensures
            self@.map.dom().finite(),
            self@.children.dom().finite(),
            self@.tombstones.dom().finite(),
            live_keys(self@.map).finite(),
            sorted_keys(self.entry_seq()),
            seq_map(self.entry_seq()) == self@.map,
    {
        self.map.lemma_view();
        self.child_containers.lemma_view();
        self.mergeable_tombstones.lemma_view();
        lemma_live_keys_remove(self.map@, Seq::empty());
    }

    pub fn new(idx: ContainerIdx) -> (r: MapState)
        ensures
            r.wf(),
            r@.idx == idx,
            r@.map == Map::<Seq<char>, MapValueView>::empty(),
            r@.children == Map::<ContainerIdView, Seq<char>>::empty(),
            r@.tombstones == Map::<Seq<char>, IdLp>::empty(),
    {
        let r = MapState {
            idx,
            map: StrMap::new(),
            child_containers: ChildTable::new(),
            mergeable_tombstones: StrMap::new(),
            size: 0,
        };
        assert(live_keys(r.map@) =~= Set::<Seq<char>>::empty());
        r
    }

    pub fn container_idx(&self) -> (r: ContainerIdx)
        ensures
            r == self@.idx,
    {
        self.idx
    }

    /// No key was ever written (deleted keys count as written).
    pub fn is_state_empty(&self) -> (r: bool)
        requires
            self.wf(),
        ensures
            r == self@.map.is_empty(),
    {
        proof {
            self.map.lemma_view();
        }
        let r = self.map.len() == 0;
        proof {
            if !r {
                assert(self@.map.contains_key(self.map.entry_seq()[0].0@));
            } else {
                assert(self@.map =~= Map::<Seq<char>, MapValueView>::empty());
            }
        }
        r
    }

    /// Write register `value` to `key`; the register it replaces comes back.
    pub fn insert(&mut self, key: String, value: MapValue) -> (r: Option<MapValue>)
        requires
            old(self).wf(),
        ensures
            final(self).wf(),
            final(self)@ == insert_spec(old(self)@, key@, value@),
            match r {
                Some(o) => old(self)@.map.contains_key(key@) && o@ == old(self)@.map[key@],
                None => !old(self)@.map.contains_key(key@),
            },
    {
        proof {
            self.lemma_wf();
            lemma_live_keys_insert(self.map@, key@, value@);
        }
        let ghost s = self@;
        let value_yes = value.value.is_some();
        let new_child: Option<ContainerID> = match value.container() {
            Some(id) => Some(id.clone_id()),
            None => None,
        };
        let child_key = key.clone();
        let result = self.map.insert(key, value);
        let stored = self.map.len();
        proof {
            self.map.lemma_view();
            vstd::set_lib::lemma_len_subset(live_keys(self.map@), self.map@.dom());
            assert(live_keys(self.map@).len() <= stored);
        }
        match &result {
            Some(old_value) => match old_value.container() {
                Some(c) => {
                    self.child_containers.remove(c);
                },
                None => {},
            },
            None => {},
        }
        match new_child {
            Some(id) => {
                self.child_containers.insert(id, child_key);
            },
            None => {},
        }
        match &result {
            Some(x) => {
                if value_yes {
                    if x.value.is_none() {
                        self.size = self.size + 1;
                    }
                } else {
                    if x.value.is_some() {
                        self.size = self.size - 1;
                    }
                }
            },
            None => {
                if value_yes {
                    self.size = self.size + 1;
                }
            },
        }
        proof {
            self.map.lemma_view();
        }
        result
    }

    /// Forget `key`, and unregister the container it held.
    pub fn remove(&mut self, key: &str)
        requires
            old(self).wf(),
        ensures
            final(self).wf(),
            final(self)@ == remove_spec(old(self)@, key@),
    {
        proof {
            self.lemma_wf();
            lemma_live_keys_remove(self.map@, key@);
        }
        let result = self.map.remove(key);
        match result {
            Some(x) => {
                if x.value.is_some() {
                    self.size = self.size - 1;
                }
                match x.container() {
                    Some(id) => {
                        self.child_containers.remove(id);
                    },
                    None => {},
                }
            },
            None => {},
        }
        proof {
            self.map.lemma_view();
        }
    }

    /// The registers in key order.
    pub fn iter(&self) -> (r: &[(String, MapValue)])
        requires
            self.wf(),
        ensures
            sorted_keys(r@),
            seq_map(r@) == self@.map,
    {
        proof {
            self.lemma_wf();
        }
        self.map.as_slice()
    }

    /// The value of `k`, if it holds one.
    pub fn get(&self, k: &str) -> (r: Option<&LoroValue>)
        requires
            self.wf(),
        ensures
            match r {
                Some(v) => self@.map.contains_key(k@) && self@.map[k@].value == Some(v@),
                None => !self@.map.contains_key(k@) || self@.map[k@].value is None,
            },
    {
        match self.map.get(k) {
            Some(value) => match &value.value {
                Some(v) => Some(v),
                None => None,
            },
            None => None,
        }
    }

    /// The number of keys that hold a value.
    pub fn len(&self) -> (r: usize)
        requires
            self.wf(),
        ensures
            r == live_keys(self@.map).len(),
    {
        self.size
    }

    /// The peer that last wrote `key`, deleted or not.
    pub fn get_last_edit_peer(&self, key: &str) -> (r: Option<PeerID>)
        requires
            self.wf(),
        ensures
            match r {
                Some(p) => self@.map.contains_key(key@) && self@.map[key@].peer == p,
                None => !self@.map.contains_key(key@),
            },
    {
        match self.map.get(key) {
            Some(v) => Some(v.peer),
            None => None,
        }
    }

    /// Register the mergeable child `id` under `key`, leaving the registers
    /// untouched.
    pub fn register_mergeable_child(&mut self, key: String, id: ContainerID)
        requires
            old(self).wf(),
            id@.is_mergeable(),
        ensures
            final(self).wf(),
            final(self)@ == (MapStateView { children: old(self)@.children.insert(id@, key@), ..old(self)@ }),
    {
        self.child_containers.insert(id, key);
    }

    /// Make `id` the only mergeable child registered under `key`; other
    /// children under `key` stay.
    pub fn replace_mergeable_child_for_key(&mut self, key: String, id: ContainerID)
        requires
            old(self).wf(),
            id@.is_mergeable(),
        ensures
            final(self).wf(),
            final(self)@ == (MapStateView {
                children: without_mergeable_under(old(self)@.children, key@).insert(id@, key@),
                ..old(self)@
            }),
    {
        self.child_containers.remove_mergeable_under(key.as_str());
        self.child_containers.insert(id, key);
    }

    /// Every mergeable child, with the key it hangs under.
    pub fn iter_mergeable_children(&self) -> (r: Vec<(String, ContainerID)>)
        requires
            self.wf(),
        ensures
            lists_mergeable_children(self@.children, r@),
    {
        self.child_containers.mergeable_entries()
    }

    /// Every mergeable child registered under `key`, each once.
    pub fn mergeable_child_ids_for_key(&self, key: &str) -> (r: Vec<ContainerID>)
        requires
            self.wf(),
        ensures
            forall|i: int|
                0 <= i < r@.len() ==> #[trigger] mergeable_under(self@.children, key@).contains(r@[i]@),
            forall|c: ContainerIdView| #[trigger]
                mergeable_under(self@.children, key@).contains(c) ==> exists|i: int|
                    0 <= i < r@.len() && r@[i]@ == c,
            forall|i: int, j: int| 0 <= i < j < r@.len() ==> #[trigger] r@[i]@ != #[trigger] r@[j]@,
    {
        self.child_containers.mergeable_ids_for_key(key)
    }

    /// A mergeable child registered under `key`, if there is one.
    pub fn get_mergeable_child_id(&self, key: &str) -> (r: Option<&ContainerID>)
        requires
            self.wf(),
        ensures
            match r {
                Some(c) => mergeable_under(self@.children, key@).contains(c@),
                None => mergeable_under(self@.children, key@) == Set::<ContainerIdView>::empty(),
            },
    {
        self.child_containers.first_mergeable_for_key(key)
    }

    /// The tombstone of `key`, if any.
    pub fn mergeable_tombstone(&self, key: &str) -> (r: Option<IdLp>)
        requires
            self.wf(),
        ensures
            match r {
                Some(t) => self@.tombstones.contains_key(key@) && self@.tombstones[key@] == t,
                None => !self@.tombstones.contains_key(key@),
            },
    {
        match self.mergeable_tombstones.get(key) {
            Some(t) => Some(*t),
            None => None,
        }
    }

    /// Record a delete of `key` stamped `idlp`; a later tombstone is never
    /// replaced by an earlier one.
    pub fn set_mergeable_tombstone(&mut self, key: String, idlp: IdLp)
        requires
            old(self).wf(),
        ensures
            final(self).wf(),
            final(self)@ == (MapStateView {
                tombstones: tombstone_after(old(self)@.tombstones, key@, idlp),
                ..old(self)@
            }),
    {
        match self.mergeable_tombstones.get(key.as_str()) {
            Some(t) => {
                if t.lt(&idlp) {
                    self.mergeable_tombstones.insert(key, idlp);
                } else {
                    assert(self.mergeable_tombstones@ == tombstone_after(
                        self.mergeable_tombstones@,
                        key@,
                        idlp,
                    ));
                }
            },
            None => {
                self.mergeable_tombstones.insert(key, idlp);
            },
        }
    }

    /// Every tombstone, in key order.
    pub fn iter_mergeable_tombstones(&self) -> (r: &[(String, IdLp)])
        requires
            self.wf(),
        ensures
            sorted_keys(r@),
            seq_map(r@) == self@.tombstones,
    {
        proof {
            self.mergeable_tombstones.lemma_view();
        }
        self.mergeable_tombstones.as_slice()
    }

    /// Unregister the child `cid`; whether it was registered comes back.
    pub fn evict_mergeable_child_cid(&mut self, cid: &ContainerID) -> (r: bool)
        requires
            old(self).wf(),
        ensures
            final(self).wf(),
            final(self)@ == (MapStateView { children: old(self)@.children.remove(cid@), ..old(self)@ }),
            r == old(self)@.children.contains_key(cid@),
    {
        self.child_containers.remove(cid)
    }

    /// `id` is registered as a child of this map.
    pub fn contains_child(&self, id: &ContainerID) -> (r: bool)
        requires
            self.wf(),
        ensures
            r == self@.children.contains_key(id@),
    {
        self.child_containers.contains(id)
    }

    /// A copy of this state.
    pub fn fork(&self) -> (r: MapState)
        requires
            self.wf(),
        ensures
            r.wf(),
            r@ == self@,
    {
        MapState {
            idx: self.idx,
            map: self.map.clone_map(),
            child_containers: self.child_containers.clone_table(),
            mergeable_tombstones: self.mergeable_tombstones.clone_map(),
            size: self.size,
        }
    }
}

/// How a diff is being applied. Checkout and linear application overwrite
/// registers unconditionally; imports keep the later write.
#[derive(Clone, Copy, Debug, PartialEq, Eq, Structural)]
pub enum DiffMode {
    Checkout,
    Import,
    ImportGreaterUpdates,
    Linear,
}

impl DiffMode {
    pub open spec fn forces(self) -> bool {
        self is Checkout || self is Linear
    }
}

/// A map diff: for each key, the register to write, or nothing to forget
/// the key (undoing its creation, which only a checkout does).
pub struct MapDelta {
    pub updated: Vec<(String, Option<MapValue>)>,
}

/// A register as reported to observers.
#[derive(Debug, PartialEq, Eq)]
pub struct ResolvedMapValue {
    pub idlp: IdLp,
    pub value: Option<LoroValue>,
}

pub struct ResolvedMapValueView {
    pub idlp: IdLp,
    pub value: Option<LoroValueView>,
}

impl View for ResolvedMapValue {
    type V = ResolvedMapValueView;

    open spec fn view(&self) -> ResolvedMapValueView {
        ResolvedMapValueView { idlp: self.idlp, value: crate::value::opt_value_view(self.value) }
    }
}

/// The changes a diff made, as reported to observers.
pub struct ResolvedMapDelta {
    pub updated: Vec<(String, ResolvedMapValue)>,
}

/// The stamp reported for a forgotten key.
pub open spec fn unset_idlp() -> IdLp {
    IdLp { lamport: 0, peer: 0 }
}

pub open spec fn opt_register_view(v: Option<MapValue>) -> Option<MapValueView> {
    match v {
        Some(x) => Some(x@),
        None => None,
    }
}

/// An import writes `v` unless the key already holds a later write.
pub open spec fn accepts(s: MapStateView, k: Seq<char>, v: MapValueView, force: bool) -> bool {
    force || !(s.map.contains_key(k) && crate::value::map_value_gt(s.map[k], v))
}

/// The state after one diff entry.
pub open spec fn apply_entry(s: MapStateView, k: Seq<char>, v: Option<MapValueView>, force: bool) -> MapStateView {
    match v {
        None => remove_spec(s, k),
        Some(v) => if accepts(s, k, v, force) {
            insert_spec(s, k, v)
        } else {
            s
        },
    }
}

/// The report of one diff entry: empty when the entry changed nothing.
pub open spec fn report_entry(s: MapStateView, k: Seq<char>, v: Option<MapValueView>, force: bool) -> Seq<
    (Seq<char>, ResolvedMapValueView),
> {
    match v {
        None => seq![(k, ResolvedMapValueView { idlp: unset_idlp(), value: None })],
        Some(v) => if accepts(s, k, v, force) {
            seq![(k, ResolvedMapValueView { idlp: v.idlp(), value: v.value })]
        } else {
            Seq::empty()
        },
    }
}

/// The state after the diff entries, applied in order.
pub open spec fn apply_all(s: MapStateView, d: Seq<(String, Option<MapValue>)>, force: bool) -> MapStateView
    decreases d.len(),
{
    if d.len() == 0 {
        s
    } else {
        apply_entry(apply_all(s, d.drop_last(), force), d.last().0@, opt_register_view(d.last().1), force)
    }
}

/// The report of the diff entries, applied in order.
pub open spec fn report_all(s: MapStateView, d: Seq<(String, Option<MapValue>)>, force: bool) -> Seq<
    (Seq<char>, ResolvedMapValueView),
>
    decreases d.len(),
{
    if d.len() == 0 {
        Seq::empty()
    } else {
        report_all(s, d.drop_last(), force) + report_entry(
            apply_all(s, d.drop_last(), force),
            d.last().0@,
            opt_register_view(d.last().1),
            force,
        )
    }
}

pub open spec fn report_view(r: Seq<(String, ResolvedMapValue)>) -> Seq<(Seq<char>, ResolvedMapValueView)> {
    r.map_values(|e: (String, ResolvedMapValue)| (e.0@, e.1@))
}

pub open spec fn ids_view(s: Seq<ContainerID>) -> Seq<ContainerIdView> {
    s.map_values(|c: ContainerID| c@)
}

/// The containers held by the registers, in order.
pub open spec fn value_containers(s: Seq<(String, MapValue)>) -> Seq<ContainerIdView>
    decreases s.len(),
{
    if s.len() == 0 {
        Seq::empty()
    } else {
        value_containers(s.drop_last()) + match s.last().1@.container() {
            Some(c) => seq![c],
            None => Seq::empty(),
        }
    }
}

/// The content of a map operation: write `value` (or delete) at `key`.
pub struct MapSet {
    pub key: String,
    pub value: Option<LoroValue>,
}

/// The content of a local operation.
pub enum RawOpContent {
    MapOp(MapSet),
    /// An operation on a container of another kind.
    Other(crate::types::ContainerType),
}

/// A local operation, stamped with its peer, counter and lamport.
pub struct RawOp {
    pub peer: PeerID,
    pub counter: crate::types::Counter,
    pub lamport: crate::types::Lamport,
    pub container: ContainerIdx,
    pub content: RawOpContent,
}

/// What applying a local operation reports.
pub struct ApplyLocalOpReturn {
    /// Containers that the operation detached.
    pub deleted_containers: Vec<ContainerID>,
}

/// Where a child sits in its parent.
#[derive(Debug, PartialEq, Eq)]
pub enum Index {
    Key(String),
    Position(usize),
}

/// Errors of map state operations.
#[derive(Debug, PartialEq, Eq)]
pub enum LoroError {
    DecodeError(String),
}

impl MapState {
    /// Apply a diff and report the entries that changed.
    pub fn apply_diff_and_convert(&mut self, diff: MapDelta, mode: DiffMode) -> (r: ResolvedMapDelta)
        requires
            old(self).wf(),
            forall|i: int| 0 <= i < diff.updated@.len() && (#[trigger] diff.updated@[i]).1 is None ==> mode == DiffMode::Checkout,
        ensures
            final(self).wf(),
            final(self)@ == apply_all(old(self)@, diff.updated@, mode.forces()),
            report_view(r.updated@) == report_all(old(self)@, diff.updated@, mode.forces()),
    {
        let force = match mode {
            DiffMode::Checkout | DiffMode::Linear => true,
            _ => false,
        };
        let ghost s0 = self@;
        let ghost d = diff.updated@;
        let mut out: Vec<(String, ResolvedMapValue)> = Vec::new();
        let mut i: usize = 0;
        assert(d.take(0) =~= Seq::<(String, Option<MapValue>)>::empty());
        assert(report_view(out@) =~= Seq::<(Seq<char>, ResolvedMapValueView)>::empty());
        while i < diff.updated.len()
            invariant
                d == diff.updated@,
                force == mode.forces(),
                i <= d.len(),
                self.wf(),
                self@ == apply_all(s0, d.take(i as int), force),
                report_view(out@) == report_all(s0, d.take(i as int), force),
            decreases d.len() - i,
        {
            let ghost before = self@;
            let ghost out_before = out@;
            proof {
                assert(d.take(i + 1).drop_last() =~= d.take(i as int));
                assert(d.take(i + 1).last() == d[i as int]);
            }
            let key = diff.updated[i].0.clone();
            match &diff.updated[i].1 {
                None => {
                    self.remove(key.as_str());
                    out.push((key, ResolvedMapValue { idlp: IdLp::new(0, 0), value: None }));
                },
                Some(value) => {
                    let changed = if force {
                        true
                    } else {
                        match self.map.get(key.as_str()) {
                            Some(old_value) => !old_value.gt(value),
                            None => true,
                        }
                    };
                    if changed {
                        let stored = value.clone_map_value();
                        self.insert(key.clone(), stored);
                        let reported = match &value.value {
                            Some(v) => Some(v.clone_value()),
                            None => None,
                        };
                        out.push((key, ResolvedMapValue { idlp: value.idlp(), value: reported }));
                    }
                },
            }
            assert(report_view(out@) =~= report_view(out_before) + report_entry(
                before,
                d[i as int].0@,
                opt_register_view(d[i as int].1),
                force,
            ));
            i = i + 1;
        }
        assert(d.take(d.len() as int) =~= d);
        ResolvedMapDelta { updated: out }
    }

    /// Apply a diff.
    pub fn apply_diff(&mut self, diff: MapDelta, mode: DiffMode) -> (r: Result<(), LoroError>)
        requires
            old(self).wf(),
            forall|i: int| 0 <= i < diff.updated@.len() && (#[trigger] diff.updated@[i]).1 is None ==> mode == DiffMode::Checkout,
        ensures
            final(self).wf(),
            final(self)@ == apply_all(old(self)@, diff.updated@, mode.forces()),
            r is Ok,
    {
        let _ = self.apply_diff_and_convert(diff, mode);
        Ok(())
    }

    /// Apply a local map operation: its register overwrites the key, and a
    /// container that the key held is reported as deleted.
    pub fn apply_local_op(&mut self, op: &RawOp) -> (r: Result<ApplyLocalOpReturn, LoroError>)
        requires
            old(self).wf(),
            op.content is MapOp,
        ensures
            final(self).wf(),
            ({
                let set = op.content->MapOp_0;
                let v = MapValueView { value: crate::value::opt_value_view(set.value), lamp: op.lamport, peer: op.peer };
                final(self)@ == insert_spec(old(self)@, set.key@, v)
            }),
            r matches Ok(ret) && ids_view(ret.deleted_containers@) == (if old(self)@.map.contains_key((op.content->MapOp_0).key@)
                && old(self)@.map[(op.content->MapOp_0).key@].container() is Some {
                seq![old(self)@.map[(op.content->MapOp_0).key@].container()->0]
            } else {
                Seq::<ContainerIdView>::empty()
            }),
    {
        let mut ans = ApplyLocalOpReturn { deleted_containers: Vec::new() };
        match &op.content {
            RawOpContent::MapOp(set) => {
                let value = match &set.value {
                    Some(v) => Some(v.clone_value()),
                    None => None,
                };
                let prev = self.insert(set.key.clone(), MapValue { lamp: op.lamport, peer: op.peer, value });
                match &prev {
                    Some(p) => match p.container() {
                        Some(c) => {
                            ans.deleted_containers.push(c.clone_id());
                        },
                        None => {},
                    },
                    None => {},
                }
                assert(ids_view(ans.deleted_containers@) =~= (if old(self)@.map.contains_key(set.key@)
                    && old(self)@.map[set.key@].container() is Some {
                    seq![old(self)@.map[set.key@].container()->0]
                } else {
                    Seq::<ContainerIdView>::empty()
                }));
            },
            RawOpContent::Other(_) => {},
        }
        Ok(ans)
    }

    /// The diff that rebuilds this state from an empty one: every register,
    /// in key order.
    pub fn to_diff(&self) -> (r: ResolvedMapDelta)
        requires
            self.wf(),
        ensures
            sorted_keys(r.updated@),
            seq_map(r.updated@) == Map::new(
                |k: Seq<char>| self@.map.contains_key(k),
                |k: Seq<char>| ResolvedMapValueView { idlp: self@.map[k].idlp(), value: self@.map[k].value },
            ),
    {
        proof {
            self.lemma_wf();
        }
        let entries = self.map.as_slice();
        let ghost s = entries@;
        let mut out: Vec<(String, ResolvedMapValue)> = Vec::new();
        let mut i: usize = 0;
        while i < entries.len()
            invariant
                s == entries@,
                i <= s.len(),
                out@.len() == i,
                forall|j: int| 0 <= j < i ==> #[trigger] out@[j].0@ == s[j].0@ && out@[j].1@ == (ResolvedMapValueView { idlp: s[j].1@.idlp(), value: s[j].1@.value }),
            decreases s.len() - i,
        {
            let value = match &entries[i].1.value {
                Some(v) => Some(v.clone_value()),
                None => None,
            };
            out.push((entries[i].0.clone(), ResolvedMapValue { idlp: entries[i].1.idlp(), value }));
            i = i + 1;
        }
        proof {
            assert(sorted_keys(out@)) by {
                assert forall|a: int, b: int| 0 <= a < b < out@.len() implies crate::keys::key_lt(#[trigger] out@[a].0@, #[trigger] out@[b].0@) by {
                    assert(crate::keys::key_lt(s[a].0@, s[b].0@));
                }
            }
            crate::str_map::lemma_sorted_unique(out@);
            crate::str_map::lemma_sorted_unique(s);
            crate::str_map::lemma_seq_map(out@);
            crate::str_map::lemma_seq_map(s);
            let target = Map::new(
                |k: Seq<char>| self@.map.contains_key(k),
                |k: Seq<char>| ResolvedMapValueView { idlp: self@.map[k].idlp(), value: self@.map[k].value },
            );
            assert(seq_map(out@) =~= target) by {
                assert forall|k: Seq<char>| #[trigger] seq_map(out@).contains_key(k) <==> target.contains_key(k) by {
                    if seq_map(out@).contains_key(k) {
                        let j = choose|j: int| 0 <= j < out@.len() && out@[j].0@ == k;
                        assert(seq_map(s).contains_key(s[j].0@));
                    }
                    if target.contains_key(k) {
                        let j = choose|j: int| 0 <= j < s.len() && s[j].0@ == k;
                        assert(seq_map(out@).contains_key(out@[j].0@));
                    }
                }
                assert forall|k: Seq<char>| #[trigger] seq_map(out@).contains_key(k) implies seq_map(out@)[k] == target[k] by {
                    let j = choose|j: int| 0 <= j < out@.len() && out@[j].0@ == k;
                    assert(seq_map(s)[s[j].0@] == s[j].1@);
                }
            }
        }
        ResolvedMapDelta { updated: out }
    }

    /// The keys that hold a value, with their values, in key order.
    pub fn to_map(&self) -> (r: Vec<(String, LoroValue)>)
        requires
            self.wf(),
        ensures
            sorted_keys(r@),
            seq_map(r@) == present_values(self@.map),
    {
        proof {
            self.lemma_wf();
        }
        let entries = self.map.as_slice();
        let ghost s = entries@;
        let mut out: Vec<(String, LoroValue)> = Vec::new();
        let ghost mut pos: Seq<int> = Seq::empty();
        let mut i: usize = 0;
        while i < entries.len()
            invariant
                s == entries@,
                sorted_keys(s),
                i <= s.len(),
                out@.len() == pos.len(),
                forall|j: int| 0 <= j < pos.len() ==> 0 <= #[trigger] pos[j] < i && out@[j].0@ == s[pos[j]].0@
                    && s[pos[j]].1@.value == Some(out@[j].1@),
                forall|a: int, b: int| 0 <= a < b < pos.len() ==> #[trigger] pos[a] < #[trigger] pos[b],
                forall|k: int| 0 <= k < i && (#[trigger] s[k]).1@.value is Some ==> exists|j: int| 0 <= j < pos.len() && pos[j] == k,
            decreases s.len() - i,
        {
            match &entries[i].1.value {
                Some(v) => {
                    out.push((entries[i].0.clone(), v.clone_value()));
                    proof {
                        let ghost old_pos = pos;
                        pos = pos.push(i as int);
                        assert forall|k: int| 0 <= k < i + 1 && (#[trigger] s[k]).1@.value is Some implies exists|j: int| 0 <= j < pos.len() && pos[j] == k by {
                            if k < i {
                                let j = choose|j: int| 0 <= j < old_pos.len() && old_pos[j] == k;
                                assert(pos[j] == k);
                            } else {
                                assert(pos[pos.len() - 1] == k);
                            }
                        }
                    }
                },
                None => {},
            }
            i = i + 1;
        }
        proof {
            assert(sorted_keys(out@)) by {
                assert forall|a: int, b: int| 0 <= a < b < out@.len() implies crate::keys::key_lt(#[trigger] out@[a].0@, #[trigger] out@[b].0@) by {
                    assert(pos[a] < pos[b]);
                }
            }
            crate::str_map::lemma_sorted_unique(out@);
            crate::str_map::lemma_sorted_unique(s);
            crate::str_map::lemma_seq_map(out@);
            crate::str_map::lemma_seq_map(s);
            let target = present_values(self@.map);
            assert(seq_map(out@) =~= target) by {
                assert forall|k: Seq<char>| #[trigger] seq_map(out@).contains_key(k) <==> target.contains_key(k) by {
                    if seq_map(out@).contains_key(k) {
                        let j = choose|j: int| 0 <= j < out@.len() && out@[j].0@ == k;
                        assert(seq_map(s).contains_key(s[pos[j]].0@));
                    }
                    if target.contains_key(k) {
                        let kk = choose|kk: int| 0 <= kk < s.len() && s[kk].0@ == k;
                        assert(seq_map(s)[s[kk].0@] == s[kk].1@);
                        let j = choose|j: int| 0 <= j < pos.len() && pos[j] == kk;
                        assert(seq_map(out@).contains_key(out@[j].0@));
                    }
                }
                assert forall|k: Seq<char>| #[trigger] seq_map(out@).contains_key(k) implies seq_map(out@)[k] == target[k] by {
                    let j = choose|j: int| 0 <= j < out@.len() && out@[j].0@ == k;
                    assert(seq_map(s)[s[pos[j]].0@] == s[pos[j]].1@);
                }
            }
        }
        out
    }

    /// The value of the whole map: a dictionary of the keys that hold a value.
    pub fn get_value(&self) -> (r: LoroValue)
        requires
            self.wf(),
        ensures
            r matches LoroValue::Dict(d) && sorted_keys(d@) && seq_map(d@) == present_values(self@.map),
    {
        LoroValue::Dict(self.to_map())
    }

    /// The key that the child `id` hangs under.
    pub fn get_child_index(&self, id: &ContainerID) -> (r: Option<Index>)
        requires
            self.wf(),
        ensures
            match r {
                Some(Index::Key(k)) => self@.children.contains_key(id@) && self@.children[id@] == k@,
                Some(_) => false,
                None => !self@.children.contains_key(id@),
            },
    {
        match self.child_containers.get(id) {
            Some(k) => Some(Index::Key(k.clone())),
            None => None,
        }
    }

    /// The children of this map: the containers its registers hold, in key
    /// order, then its mergeable children.
    pub fn get_child_containers(&self) -> (r: Vec<ContainerID>)
        requires
            self.wf(),
        ensures
            ids_view(r@).take(value_containers(self.entry_seq()).len() as int) == value_containers(self.entry_seq()),
            value_containers(self.entry_seq()).len() <= r@.len(),
            forall|i: int| value_containers(self.entry_seq()).len() <= i < r@.len() ==> #[trigger] self@.children.contains_key(r@[i]@) && r@[i]@.is_mergeable(),
            forall|c: ContainerIdView| #[trigger] self@.children.contains_key(c) && c.is_mergeable() ==> exists|i: int|
                value_containers(self.entry_seq()).len() <= i < r@.len() && r@[i]@ == c,
            forall|i: int, j: int| value_containers(self.entry_seq()).len() <= i < j < r@.len() ==> #[trigger] r@[i]@ != #[trigger] r@[j]@,
    {
        let entries = self.map.as_slice();
        let ghost s = entries@;
        let mut ans: Vec<ContainerID> = Vec::new();
        let mut i: usize = 0;
        assert(s.take(0) =~= Seq::<(String, MapValue)>::empty());
        assert(ids_view(ans@) =~= Seq::<ContainerIdView>::empty());
        while i < entries.len()
            invariant
                s == entries@,
                i <= s.len(),
                ids_view(ans@) == value_containers(s.take(i as int)),
            decreases s.len() - i,
        {
            let ghost before = ans@;
            match entries[i].1.container() {
                Some(c) => {
                    ans.push(c.clone_id());
                },
                None => {},
            }
            assert(s.take(i + 1).drop_last() =~= s.take(i as int));
            assert(ids_view(ans@) =~= ids_view(before) + match s[i as int].1@.container() {
                Some(c) => seq![c],
                None => Seq::<ContainerIdView>::empty(),
            });
            i = i + 1;
        }
        assert(s.take(s.len() as int) =~= s);
        let ghost n = ans@.len();
        let mergeable = self.child_containers.mergeable_entries();
        let mut j: usize = 0;
        while j < mergeable.len()
            invariant
                n <= ans@.len(),
                ans@.len() == n + j,
                j <= mergeable@.len(),
                ids_view(ans@).take(n as int) == value_containers(s),
                forall|k: int| 0 <= k < j ==> #[trigger] ans@[n + k]@ == mergeable@[k].1@,
            decreases mergeable@.len() - j,
        {
            let ghost before = ans@;
            ans.push(mergeable[j].1.clone_id());
            assert(ids_view(ans@).take(n as int) =~= ids_view(before).take(n as int));
            assert forall|k: int| 0 <= k < j + 1 implies #[trigger] ans@[n + k]@ == mergeable@[k].1@ by {
                if k < j {
                    assert(ans@[n + k] == before[n + k]);
                }
            }
            j = j + 1;
        }
        assert forall|c: ContainerIdView| #[trigger] self@.children.contains_key(c) && c.is_mergeable() implies exists|i: int|
            n <= i < ans@.len() && ans@[i]@ == c by {
            let k = choose|k: int| 0 <= k < mergeable@.len() && mergeable@[k].1@ == c;
            assert(ans@[n + k]@ == c);
        }
        assert forall|a: int, b: int| n <= a < b < ans@.len() implies #[trigger] ans@[a]@ != #[trigger] ans@[b]@ by {
            assert(ans@[n + (a - n)]@ == mergeable@[a - n].1@);
            assert(ans@[n + (b - n)]@ == mergeable@[b - n].1@);
        }
        assert forall|i: int| n <= i < ans@.len() implies #[trigger] self@.children.contains_key(ans@[i]@) && ans@[i]@.is_mergeable() by {
            assert(ans@[n + (i - n)]@ == mergeable@[i - n].1@);
        }
        ans
    }
}

} // verus!

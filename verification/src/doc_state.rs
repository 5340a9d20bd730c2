//! The document: the arena of container identifiers with their parent
//! edges, the store of container states, the op log, and the check of
//! whether a container is deleted.

use vstd::prelude::*;
use crate::dead_containers_cache::DeadContainersCache;
use crate::map_state::{ids_view, MapState, MapStateView};
use crate::types::{ContainerID, ContainerIdView, ContainerIdx, ContainerType, Counter, IdLp, Lamport, PeerID};

verus! {

/// How deeply an identifier nests mergeable parents.
pub open spec fn id_depth(c: ContainerIdView) -> nat
    decreases c,
{
    match c {
        ContainerIdView::Mergeable { parent, .. } => 1 + id_depth(*parent),
        _ => 1,
    }
}

/// Following parent edges from `i` reaches an index without parent within
/// `n` steps.
pub open spec fn reaches_top(parents: Seq<Option<ContainerIdx>>, i: int, n: nat) -> bool
    decreases n,
{
    &&& 0 <= i < parents.len()
    &&& match parents[i] {
        None => true,
        Some(p) => n > 0 && reaches_top(parents, p as int, (n - 1) as nat),
    }
}

/// More steps, or more indices after the known ones, still reach the top.
pub proof fn lemma_reaches_top_grow(parents: Seq<Option<ContainerIdx>>, more: Seq<Option<ContainerIdx>>, i: int, n: nat, m: nat)
    requires
        reaches_top(parents, i, n),
        n <= m,
        parents.len() <= more.len(),
        forall|j: int| 0 <= j < parents.len() ==> #[trigger] more[j] == parents[j],
    ensures
        reaches_top(more, i, m),
    decreases n,
{
    match parents[i] {
        None => {},
        Some(p) => {
            lemma_reaches_top_grow(parents, more, p as int, (n - 1) as nat, (m - 1) as nat);
        },
    }
}

/// The mathematical value of a [`SharedArena`].
pub struct ArenaView {
    /// The identifier of each index.
    pub ids: Seq<ContainerIdView>,
    /// The parent of each index, if it has one.
    pub parents: Seq<Option<ContainerIdx>>,
}

impl ArenaView {
    pub open spec fn len(self) -> nat {
        self.ids.len()
    }

    /// The index of `id`, if registered.
    pub open spec fn contains(self, id: ContainerIdView) -> bool {
        exists|i: int| 0 <= i < self.ids.len() && self.ids[i] == id
    }

    /// Every index has an identifier and a parent slot; parent edges lead
    /// to registered indices and never round in a cycle; no identifier is
    /// registered twice; a mergeable identifier's parent edge leads to its
    /// parent identifier.
    pub open spec fn wf(self) -> bool {
        &&& self.ids.len() == self.parents.len()
        &&& self.ids.len() < u32::MAX
        &&& forall|i: int| 0 <= i < self.parents.len() && #[trigger] self.parents[i] is Some ==> self.parents[i]->0 < self.parents.len()
        &&& forall|i: int| 0 <= i < self.parents.len() ==> #[trigger] reaches_top(self.parents, i, self.parents.len())
        &&& forall|i: int, j: int| 0 <= i < j < self.ids.len() ==> #[trigger] self.ids[i] != #[trigger] self.ids[j]
        &&& forall|i: int| 0 <= i < self.ids.len() && (#[trigger] self.ids[i]).is_mergeable() ==> {
            &&& self.parents[i] is Some
            &&& self.ids[self.parents[i]->0 as int] == *self.ids[i]->Mergeable_parent
        }
    }

    /// This arena keeps everything of `old` and only adds identifiers.
    pub open spec fn extends(self, old: ArenaView) -> bool {
        &&& old.ids.len() <= self.ids.len()
        &&& forall|i: int| 0 <= i < old.ids.len() ==> #[trigger] self.ids[i] == old.ids[i] && self.parents[i] == old.parents[i]
    }
}

/// The container identifiers of a document, indexed, with parent edges.
pub struct SharedArena {
    ids: Vec<ContainerID>,
    parents: Vec<Option<ContainerIdx>>,
}

impl View for SharedArena {
    type V = ArenaView;

    closed spec fn view(&self) -> ArenaView {
        ArenaView { ids: ids_view(self.ids@), parents: self.parents@ }
    }
}

impl SharedArena {
    pub fn new() -> (r: SharedArena)
        ensures
            r@.wf(),
            r@.ids.len() == 0,
    {
        let r = SharedArena { ids: Vec::new(), parents: Vec::new() };
        assert(r@.ids =~= Seq::<ContainerIdView>::empty());
        r
    }

    pub fn len(&self) -> (r: usize)
        requires
            self@.wf(),
        ensures
            r == self@.len(),
    {
        self.ids.len()
    }

    /// The identifier at `idx`.
    pub fn idx_to_id(&self, idx: ContainerIdx) -> (r: Option<&ContainerID>)
        requires
            self@.wf(),
        ensures
            match r {
                Some(c) => idx < self@.len() && c@ == self@.ids[idx as int],
                None => idx >= self@.len(),
            },
    {
        if (idx as usize) < self.ids.len() {
            Some(&self.ids[idx as usize])
        } else {
            None
        }
    }

    /// The parent of `idx`.
    pub fn get_parent(&self, idx: ContainerIdx) -> (r: Option<ContainerIdx>)
        requires
            self@.wf(),
            idx < self@.len(),
        ensures
            r == self@.parents[idx as int],
    {
        self.parents[idx as usize]
    }

    /// The index of `id`.
    pub fn id_to_idx(&self, id: &ContainerID) -> (r: Option<ContainerIdx>)
        requires
            self@.wf(),
        ensures
            match r {
                Some(i) => i < self@.len() && self@.ids[i as int] == id@,
                None => !self@.contains(id@),
            },
    {
        let mut i: usize = 0;
        while i < self.ids.len()
            invariant
                self@.wf(),
                i <= self@.len(),
                forall|j: int| 0 <= j < i ==> self@.ids[j] != id@,
            decreases self@.len() - i,
        {
            if self.ids[i].same_as(id) {
                return Some(i as ContainerIdx);
            }
            i = i + 1;
        }
        None
    }

    /// Register `id` (and, for a mergeable identifier, its parents) and
    /// return its index; an identifier registered before keeps its index.
    pub fn register_container(&mut self, id: &ContainerID) -> (r: ContainerIdx)
        requires
            old(self)@.wf(),
            old(self)@.len() + id_depth(id@) < u32::MAX,
        ensures
            final(self)@.wf(),
            final(self)@.extends(old(self)@),
            r < final(self)@.len(),
            final(self)@.ids[r as int] == id@,
            final(self)@.len() <= old(self)@.len() + id_depth(id@),
            old(self)@.contains(id@) ==> final(self)@ == old(self)@,
            forall|c: ContainerIdView| #[trigger] final(self)@.contains(c) ==> old(self)@.contains(c) || c == id@ || (id@.is_mergeable() && id_depth(c) < id_depth(id@)),
        decreases id@,
    {
        match self.id_to_idx(id) {
            Some(i) => {
                return i;
            },
            None => {},
        }
        let ghost before = self@;
        let parent = match id {
            ContainerID::Mergeable { parent, .. } => {
                proof {
                    assert(decreases_to!(id@ => *id@->Mergeable_parent));
                }
                let p = self.register_container(&**parent);
                Some(p)
            },
            _ => None,
        };
        let ghost mid = self@;
        let n = self.ids.len();
        proof {
            if mid.contains(id@) {
                assert(false) by {
                    let k = choose|k: int| 0 <= k < mid.ids.len() && mid.ids[k] == id@;
                }
            }
        }
        self.ids.push(id.clone_id());
        self.parents.push(parent);
        assert(self@.ids =~= mid.ids.push(id@));
        assert(self@.parents =~= mid.parents.push(parent));
        assert forall|i: int| 0 <= i < before.ids.len() implies #[trigger] self@.ids[i] == before.ids[i] && self@.parents[i] == before.parents[i] by {
            assert(mid.extends(before));
            assert(mid.ids[i] == before.ids[i]);
            assert(mid.parents[i] == before.parents[i]);
            assert(self@.ids[i] == mid.ids[i]);
            assert(self@.parents[i] == mid.parents[i]);
        }
        assert forall|i: int| 0 <= i < self@.parents.len() implies #[trigger] reaches_top(self@.parents, i, self@.parents.len()) by {
            assert forall|j: int| 0 <= j < mid.parents.len() implies #[trigger] self@.parents[j] == mid.parents[j] by {}
            if i < mid.parents.len() {
                assert(reaches_top(mid.parents, i, mid.parents.len()));
                lemma_reaches_top_grow(mid.parents, self@.parents, i, mid.parents.len(), self@.parents.len());
            } else {
                match parent {
                    Some(p) => {
                        assert(reaches_top(mid.parents, p as int, mid.parents.len()));
                        lemma_reaches_top_grow(mid.parents, self@.parents, p as int, mid.parents.len(), mid.parents.len());
                        assert(self@.parents[i] == Some(p));
                    },
                    None => {},
                }
            }
        }
        assert forall|c: ContainerIdView| #[trigger] self@.contains(c) implies before.contains(c) || c == id@ || (id@.is_mergeable() && id_depth(c) < id_depth(id@)) by {
            let k = choose|k: int| 0 <= k < self@.ids.len() && self@.ids[k] == c;
            if k < mid.ids.len() {
                assert(mid.contains(c));
            }
        }
        n as ContainerIdx
    }

    /// Set the parent of `idx`. The new edge keeps the arena well formed:
    /// it leads to a registered index, closes no cycle, and a mergeable
    /// identifier keeps the parent it was registered with.
    pub fn set_parent(&mut self, idx: ContainerIdx, parent: Option<ContainerIdx>)
        requires
            old(self)@.wf(),
            idx < old(self)@.len(),
            (ArenaView { parents: old(self)@.parents.update(idx as int, parent), ..old(self)@ }).wf(),
        ensures
            final(self)@.wf(),
            final(self)@ == (ArenaView { parents: old(self)@.parents.update(idx as int, parent), ..old(self)@ }),
    {
        self.parents.set(idx as usize, parent);
    }
}

/// The state of a container of another kind than map: its kind and the
/// children it holds.
pub struct OtherState {
    pub kind: ContainerType,
    pub children: Vec<ContainerID>,
}

/// The state of one container.
pub enum ContainerState {
    Mapping(MapState),
    Other(OtherState),
}

/// The mathematical value of a [`ContainerState`].
pub enum ContainerStateView {
    Mapping(MapStateView),
    Other { kind: ContainerType, children: Seq<ContainerIdView> },
}

impl View for ContainerState {
    type V = ContainerStateView;

    open spec fn view(&self) -> ContainerStateView {
        match self {
            ContainerState::Mapping(m) => ContainerStateView::Mapping(m@),
            ContainerState::Other(o) => ContainerStateView::Other {
                kind: o.kind,
                children: ids_view(o.children@),
            },
        }
    }
}

impl ContainerStateView {
    /// `id` is a child that this container records.
    pub open spec fn contains_child(self, id: ContainerIdView) -> bool {
        match self {
            ContainerStateView::Mapping(m) => m.children.contains_key(id),
            ContainerStateView::Other { children, .. } => children.contains(id),
        }
    }
}

impl ContainerState {
    pub open spec fn wf(&self) -> bool {
        match self {
            ContainerState::Mapping(m) => m.wf(),
            ContainerState::Other(_) => true,
        }
    }

    pub fn contains_child(&self, id: &ContainerID) -> (r: bool)
        requires
            self.wf(),
        ensures
            r == self@.contains_child(id@),
    {
        match self {
            ContainerState::Mapping(m) => m.contains_child(id),
            ContainerState::Other(o) => {
                let mut i: usize = 0;
                while i < o.children.len()
                    invariant
                        *self == ContainerState::Other(*o),
                        i <= o.children@.len(),
                        forall|j: int| 0 <= j < i ==> o.children@[j]@ != id@,
                    decreases o.children@.len() - i,
                {
                    if o.children[i].same_as(id) {
                        assert(*self == ContainerState::Other(*o));
                        assert(self@ == (ContainerStateView::Other { kind: o.kind, children: ids_view(o.children@) }));
                        assert(ids_view(o.children@)[i as int] == id@);
                        return true;
                    }
                    i = i + 1;
                }
                assert(!ids_view(o.children@).contains(id@));
                false
            },
        }
    }

    pub fn as_map_state(&self) -> (r: Option<&MapState>)
        ensures
            match self {
                ContainerState::Mapping(m) => r == Some(m),
                _ => r is None,
            },
    {
        match self {
            ContainerState::Mapping(m) => Some(m),
            _ => None,
        }
    }
}

/// The state of `idx` in a store, if it has one.
pub open spec fn state_at(store: Seq<Option<ContainerStateView>>, idx: int) -> Option<ContainerStateView> {
    if 0 <= idx < store.len() {
        store[idx]
    } else {
        None
    }
}

/// One operation of a change: the container it targets and its counter.
pub struct Op {
    pub container: ContainerIdx,
    pub counter: Counter,
}

/// A change: consecutive operations of one peer; the operation with
/// counter `counter + k` has lamport `lamport + k`.
pub struct Change {
    pub peer: PeerID,
    pub counter: Counter,
    pub lamport: Lamport,
    pub ops: Vec<Op>,
}

/// The stamp of operation `op` of change `c`.
pub open spec fn op_idlp(c: Change, op: Op) -> IdLp {
    IdLp { peer: c.peer, lamport: (c.lamport + (op.counter - c.counter)) as Lamport }
}

/// No two operations of `log` carry the same stamp.
pub open spec fn unique_op_stamps(log: OpLog) -> bool {
    forall|i1: int, j1: int, i2: int, j2: int|
        #![trigger log.changes@[i1].ops@[j1], log.changes@[i2].ops@[j2]]
        0 <= i1 < log.changes@.len() && 0 <= j1 < log.changes@[i1].ops@.len() && 0 <= i2 < log.changes@.len() && 0
            <= j2 < log.changes@[i2].ops@.len() && op_idlp(log.changes@[i1], log.changes@[i1].ops@[j1])
            == op_idlp(log.changes@[i2], log.changes@[i2].ops@[j2]) ==> i1 == i2 && j1 == j2
}

/// The history of operations.
pub struct OpLog {
    pub changes: Vec<Change>,
}

impl OpLog {
    /// Counters of a change's operations start at the change's counter,
    /// every lamport fits, and no two operations carry the same stamp.
    pub open spec fn wf(&self) -> bool {
        &&& forall|i: int, j: int|
            #![trigger self.changes@[i].ops@[j]]
            0 <= i < self.changes@.len() && 0 <= j < self.changes@[i].ops@.len() ==> {
                &&& 0 <= self.changes@[i].counter <= self.changes@[i].ops@[j].counter
                &&& self.changes@[i].lamport + (self.changes@[i].ops@[j].counter - self.changes@[i].counter) <= u32::MAX
            }
        &&& unique_op_stamps(*self)
    }

    /// The stamps of every operation on container `idx`.
    pub open spec fn op_idlps(&self, idx: ContainerIdx) -> Set<IdLp> {
        Set::new(
            |x: IdLp|
                exists|i: int, j: int|
                    0 <= i < self.changes@.len() && 0 <= j < self.changes@[i].ops@.len()
                        && (#[trigger] self.changes@[i].ops@[j]).container == idx && op_idlp(
                        self.changes@[i],
                        self.changes@[i].ops@[j],
                    ) == x,
        )
    }
}

/// The mathematical value of a [`DocState`].
pub struct DocStateView {
    pub arena: ArenaView,
    pub store: Seq<Option<ContainerStateView>>,
    pub cache: Map<ContainerIdx, bool>,
}

/// `id`, whose parent's state `ps` no longer records it, is a mergeable
/// child of `parent_id` whose key carries a tombstone: it is detached but
/// kept, and not deleted.
pub open spec fn tombstoned_mergeable_child(
    id: ContainerIdView,
    parent_id: ContainerIdView,
    ps: ContainerStateView,
) -> bool {
    &&& id is Mergeable
    &&& *id->Mergeable_parent == parent_id
    &&& ps matches ContainerStateView::Mapping(m)
    &&& m.tombstones.contains_key(id->Mergeable_key)
}

/// The walk from `idx` towards the root stops at `idx` with this answer,
/// or goes on to the parent.
pub open spec fn stops_at(d: DocStateView, idx: int) -> bool {
    match d.arena.parents[idx] {
        Some(p) => match state_at(d.store, p as int) {
            None => true,
            Some(ps) => !ps.contains_child(d.arena.ids[idx]) && !tombstoned_mergeable_child(
                d.arena.ids[idx],
                d.arena.ids[p as int],
                ps,
            ),
        },
        None => true,
    }
}

/// Whether the walk from `idx` towards the root, in at most `n` steps,
/// finds `idx` deleted: some ancestor edge is broken (the parent has no
/// state, or no longer records the child and the child is not a
/// tombstoned mergeable child), or the walk reaches a container without
/// parent that is not a plain root.
pub open spec fn deleted_within(d: DocStateView, idx: int, n: nat) -> bool
    decreases n,
{
    if !(0 <= idx < d.arena.parents.len()) {
        true
    } else {
        match d.arena.parents[idx] {
            Some(p) => if stops_at(d, idx) || n == 0 {
                true
            } else {
                deleted_within(d, p as int, (n - 1) as nat)
            },
            None => !d.arena.ids[idx].is_root() || d.arena.ids[idx].is_mergeable(),
        }
    }
}

/// A container is deleted when the walk from it towards the root finds it
/// so; in a well-formed arena the walk ends within as many steps as there
/// are containers.
pub open spec fn deleted(d: DocStateView, idx: int) -> bool {
    deleted_within(d, idx, d.arena.parents.len())
}

/// The containers that the walk from `idx` visits in at most `n` steps,
/// `idx` first.
pub open spec fn walk_within(d: DocStateView, idx: int, n: nat) -> Seq<ContainerIdx>
    decreases n,
{
    if !(0 <= idx < d.arena.parents.len()) {
        seq![idx as ContainerIdx]
    } else {
        match d.arena.parents[idx] {
            Some(p) => if stops_at(d, idx) || n == 0 {
                seq![idx as ContainerIdx]
            } else {
                seq![idx as ContainerIdx] + walk_within(d, p as int, (n - 1) as nat)
            },
            None => seq![idx as ContainerIdx],
        }
    }
}

/// The containers that the walk from `idx` visits, `idx` first.
pub open spec fn walk(d: DocStateView, idx: int) -> Seq<ContainerIdx> {
    walk_within(d, idx, d.arena.parents.len())
}

/// Once the top is in reach, more steps change neither the answer nor the
/// walk.
pub proof fn lemma_within_enough(d: DocStateView, idx: int, n: nat, m: nat)
    requires
        reaches_top(d.arena.parents, idx, n),
        n <= m,
    ensures
        deleted_within(d, idx, m) == deleted_within(d, idx, n),
        walk_within(d, idx, m) == walk_within(d, idx, n),
    decreases n,
{
    match d.arena.parents[idx] {
        None => {},
        Some(p) => {
            if !stops_at(d, idx) {
                lemma_within_enough(d, p as int, (n - 1) as nat, (m - 1) as nat);
            }
        },
    }
}

/// One step of the walk: a container whose walk goes on to its parent has
/// the parent's answer, and its walk is itself followed by the parent's.
pub proof fn lemma_walk_step(d: DocStateView, idx: int)
    requires
        d.arena.wf(),
        0 <= idx < d.arena.parents.len(),
        d.arena.parents[idx] is Some,
        !stops_at(d, idx),
    ensures
        deleted(d, idx) == deleted(d, d.arena.parents[idx]->0 as int),
        walk(d, idx) == seq![idx as ContainerIdx] + walk(d, d.arena.parents[idx]->0 as int),
{
    let n = d.arena.parents.len();
    let p = d.arena.parents[idx]->0 as int;
    assert(reaches_top(d.arena.parents, idx, n));
    assert(reaches_top(d.arena.parents, p, (n - 1) as nat));
    lemma_within_enough(d, p, (n - 1) as nat, n);
}

/// One step of the deletion check, in terms of the parent's state: a
/// container whose parent has no state is deleted; one that its parent's
/// state records as a child, or a mergeable child of the parent whose key
/// carries a tombstone, is deleted exactly when its parent is; any other
/// child is deleted. In particular a child recorded by a live parent is
/// live.
pub proof fn law_deleted_follows_recording_parent(d: DocStateView, idx: int)
    requires
        d.arena.wf(),
        0 <= idx < d.arena.parents.len(),
        d.arena.parents[idx] is Some,
    ensures
        ({
            let p = d.arena.parents[idx]->0 as int;
            let id = d.arena.ids[idx];
            match state_at(d.store, p) {
                None => deleted(d, idx),
                Some(ps) => if ps.contains_child(id) || (id is Mergeable && *id->Mergeable_parent == d.arena.ids[p] && (
                ps matches ContainerStateView::Mapping(m) && m.tombstones.contains_key(id->Mergeable_key))) {
                    deleted(d, idx) == deleted(d, p)
                } else {
                    deleted(d, idx)
                },
            }
        }),
{
    let n = d.arena.parents.len();
    let p = d.arena.parents[idx]->0 as int;
    if stops_at(d, idx) {
        assert(deleted_within(d, idx, n));
    } else {
        lemma_walk_step(d, idx);
    }
}

/// Every cached container is cached as deleted and is deleted.
pub open spec fn cache_sound(d: DocStateView) -> bool {
    forall|k: ContainerIdx| #[trigger] d.cache.contains_key(k) ==> d.cache[k] && deleted(d, k as int)
}

/// Every container on the walk from `idx` has the answer of `idx`.
pub proof fn lemma_walk_same_answer(d: DocStateView, idx: int)
    requires
        0 <= idx < d.arena.parents.len(),
        d.arena.wf(),
    ensures
        walk(d, idx).len() >= 1,
        walk(d, idx)[0] == idx,
        forall|i: int| 0 <= i < walk(d, idx).len() ==> 0 <= #[trigger] walk(d, idx)[i] < d.arena.parents.len()
            && deleted(d, walk(d, idx)[i] as int) == deleted(d, idx),
{
    assert(reaches_top(d.arena.parents, idx, d.arena.parents.len()));
    lemma_walk_within_same_answer(d, idx, d.arena.parents.len());
}

proof fn lemma_walk_within_same_answer(d: DocStateView, idx: int, n: nat)
    requires
        d.arena.wf(),
        reaches_top(d.arena.parents, idx, n),
    ensures
        walk_within(d, idx, n).len() >= 1,
        walk_within(d, idx, n)[0] == idx,
        forall|i: int| 0 <= i < walk_within(d, idx, n).len() ==> 0 <= #[trigger] walk_within(d, idx, n)[i] < d.arena.parents.len()
            && deleted(d, walk_within(d, idx, n)[i] as int) == deleted(d, idx),
    decreases n,
{
    match d.arena.parents[idx] {
        Some(p) => {
            if !stops_at(d, idx) {
                lemma_walk_within_same_answer(d, p as int, (n - 1) as nat);
                lemma_walk_step(d, idx);
                let w = walk_within(d, idx, n);
                assert forall|i: int| 0 <= i < w.len() implies 0 <= #[trigger] w[i] < d.arena.parents.len()
                    && deleted(d, w[i] as int) == deleted(d, idx) by {
                    if i > 0 {
                        assert(w[i] == walk_within(d, p as int, (n - 1) as nat)[i - 1]);
                    }
                }
            }
        },
        None => {},
    }
}

pub open spec fn opt_state_view(s: Option<ContainerState>) -> Option<ContainerStateView> {
    match s {
        Some(x) => Some(x@),
        None => None,
    }
}

/// The store of container states, by index.
pub struct ContainerStore {
    states: Vec<Option<ContainerState>>,
}

impl View for ContainerStore {
    type V = Seq<Option<ContainerStateView>>;

    closed spec fn view(&self) -> Seq<Option<ContainerStateView>> {
        self.states@.map_values(|s: Option<ContainerState>| opt_state_view(s))
    }
}

impl ContainerStore {
    /// Every state is well formed.
    pub closed spec fn wf(&self) -> bool {
        forall|i: int| 0 <= i < self.states@.len() && #[trigger] self.states@[i] is Some ==> self.states@[i]->0.wf()
    }

    pub fn new() -> (r: ContainerStore)
        ensures
            r.wf(),
            r@.len() == 0,
    {
        let r = ContainerStore { states: Vec::new() };
        assert(r@ =~= Seq::<Option<ContainerStateView>>::empty());
        r
    }

    pub fn len(&self) -> (r: usize)
        ensures
            r == self@.len(),
    {
        self.states.len()
    }

    /// The state of `idx`, if any.
    pub fn get(&self, idx: ContainerIdx) -> (r: Option<&ContainerState>)
        requires
            self.wf(),
        ensures
            match r {
                Some(s) => state_at(self@, idx as int) == Some(s@) && s.wf(),
                None => state_at(self@, idx as int) is None,
            },
    {
        if (idx as usize) < self.states.len() {
            match &self.states[idx as usize] {
                Some(s) => Some(s),
                None => None,
            }
        } else {
            None
        }
    }

    /// Take the state of `idx` out, leaving no state.
    pub fn take(&mut self, idx: ContainerIdx) -> (r: Option<ContainerState>)
        requires
            old(self).wf(),
        ensures
            final(self).wf(),
            match r {
                Some(s) => state_at(old(self)@, idx as int) == Some(s@) && s.wf(),
                None => state_at(old(self)@, idx as int) is None,
            },
            final(self)@ == (if 0 <= idx < old(self)@.len() {
                old(self)@.update(idx as int, None)
            } else {
                old(self)@
            }),
    {
        if (idx as usize) < self.states.len() {
            let mut slot: Option<ContainerState> = None;
            std::mem::swap(&mut self.states[idx as usize], &mut slot);
            assert(self@ =~= old(self)@.update(idx as int, None));
            slot
        } else {
            None
        }
    }

    /// Give `idx` the state `s`.
    pub fn put(&mut self, idx: ContainerIdx, s: ContainerState)
        requires
            old(self).wf(),
            s.wf(),
        ensures
            final(self).wf(),
            final(self)@.len() == if idx < old(self)@.len() { old(self)@.len() } else { idx as nat + 1 },
            forall|i: int| 0 <= i < final(self)@.len() && i != idx ==> #[trigger] final(self)@[i] == state_at(old(self)@, i),
            final(self)@[idx as int] == Some(s@),
    {
        while self.states.len() <= idx as usize
            invariant
                self.wf(),
                self@.len() == self.states@.len(),
                old(self)@.len() <= self@.len(),
                self@.len() <= if idx < old(self)@.len() { old(self)@.len() } else { idx as nat + 1 },
                forall|i: int| 0 <= i < self@.len() ==> #[trigger] self@[i] == state_at(old(self)@, i),
            decreases idx as int + 1 - self@.len(),
        {
            let ghost prev = self.states@;
            let ghost pv = self@;
            self.states.push(None);
            assert forall|i: int| 0 <= i < self@.len() implies #[trigger] self@[i] == state_at(old(self)@, i) by {
                if i < prev.len() {
                    assert(self.states@[i] == prev[i]);
                    assert(pv[i] == opt_state_view(prev[i]));
                    assert(self@[i] == opt_state_view(prev[i]));
                } else {
                    assert(self@[i] == opt_state_view(None));
                }
            }
        }
        let ghost prev = self.states@;
        let ghost pv = self@;
        self.states.set(idx as usize, Some(s));
        assert forall|i: int| 0 <= i < self@.len() && i != idx implies #[trigger] self@[i] == state_at(old(self)@, i) by {
            assert(self.states@[i] == prev[i]);
            assert(pv[i] == opt_state_view(prev[i]));
        }
        assert forall|i: int| 0 <= i < self.states@.len() && #[trigger] self.states@[i] is Some implies self.states@[i]->0.wf() by {
            if i != idx {
                assert(self.states@[i] == prev[i]);
            }
        }
    }
}

/// The document state.
pub struct DocState {
    pub arena: SharedArena,
    pub store: ContainerStore,
    pub dead_containers_cache: DeadContainersCache,
}

impl View for DocState {
    type V = DocStateView;

    open spec fn view(&self) -> DocStateView {
        DocStateView { arena: self.arena@, store: self.store@, cache: self.dead_containers_cache@ }
    }
}

impl DocState {
    /// The arena and the store are well formed, only registered
    /// containers have a state, and every mergeable child registered in a
    /// map state hangs under its own key of that container.
    pub open spec fn wf(&self) -> bool {
        &&& self.arena@.wf()
        &&& self.store.wf()
        &&& self.store@.len() <= self.arena@.len()
        &&& crate::lww::side_tables_consistent(self@)
    }

    /// The state of container `idx`, if it has one.
    pub fn get_container(&self, idx: ContainerIdx) -> (r: Option<&ContainerState>)
        requires
            self.wf(),
        ensures
            match r {
                Some(s) => state_at(self@.store, idx as int) == Some(s@) && s.wf(),
                None => state_at(self@.store, idx as int) is None,
            },
    {
        self.store.get(idx)
    }

    /// Give the registered container `idx` the state `state`.
    pub fn set_container_state(&mut self, idx: ContainerIdx, state: ContainerState)
        requires
            old(self).wf(),
            idx < old(self)@.arena.len(),
            state.wf(),
            crate::lww::owns_its_children(old(self)@.arena.ids[idx as int], state@),
        ensures
            final(self).wf(),
            final(self)@.arena == old(self)@.arena,
            final(self)@.cache == old(self)@.cache,
            forall|i: int| i != idx ==> #[trigger] state_at(final(self)@.store, i) == state_at(old(self)@.store, i),
            state_at(final(self)@.store, idx as int) == Some(state@),
    {
        let ghost d0 = self@;
        let ghost sv = state@;
        self.store.put(idx, state);
        proof {
            crate::lww::lemma_consistent_after_change(d0, self@, idx as int);
        }
    }

    pub fn new() -> (r: DocState)
        ensures
            r.wf(),
            r@.arena.ids.len() == 0,
            r@.store.len() == 0,
            r@.cache.is_empty(),
    {
        DocState { arena: SharedArena::new(), store: ContainerStore::new(), dead_containers_cache: DeadContainersCache::new() }
    }

    /// Whether the container at `idx` is deleted. A container cached as
    /// deleted is answered from the cache; otherwise the parent edges are
    /// walked, and every container on the walk is cached as deleted or
    /// dropped from the cache, after the answer.
    pub fn is_deleted(&mut self, idx: ContainerIdx) -> (r: bool)
        requires
            old(self).wf(),
            idx < old(self)@.arena.len(),
        ensures
            final(self).wf(),
            final(self)@.arena == old(self)@.arena,
            final(self)@.store == old(self)@.store,
            r == (old(self)@.cache.contains_key(idx) || deleted(old(self)@, idx as int)),
            old(self)@.cache.contains_key(idx) ==> final(self)@.cache == old(self)@.cache,
            !old(self)@.cache.contains_key(idx) ==> forall|k: ContainerIdx|
                (#[trigger] final(self)@.cache.contains_key(k) <==> if walk(old(self)@, idx as int).contains(k) {
                    r
                } else {
                    old(self)@.cache.contains_key(k)
                }) && (final(self)@.cache.contains_key(k) ==> final(self)@.cache[k] == if walk(old(self)@, idx as int).contains(k) {
                    true
                } else {
                    old(self)@.cache[k]
                }),
    {
        if self.dead_containers_cache.contains(idx) {
            return true;
        }
        let ghost d = self@;
        let ghost start = idx as int;
        let mut visited: Vec<ContainerIdx> = Vec::new();
        visited.push(idx);
        let mut idx = idx;
        let is_deleted;
        let ghost mut fuel: nat = d.arena.parents.len();
        assert(reaches_top(d.arena.parents, idx as int, fuel));
        loop
            invariant
                self.wf(),
                self@ == d,
                d.arena.wf(),
                0 <= idx < d.arena.len(),
                reaches_top(d.arena.parents, idx as int, fuel),
                visited@.len() >= 1,
                visited@.last() == idx,
                visited@.drop_last() + walk(d, idx as int) == walk(d, start),
                deleted(d, idx as int) == deleted(d, start),
            ensures
                visited@ == walk(d, start),
                is_deleted == deleted(d, start),
            decreases fuel,
        {
            let id = self.arena.idx_to_id(idx).unwrap();
            match self.arena.get_parent(idx) {
                Some(parent_idx) => {
                    let parent_id = self.arena.idx_to_id(parent_idx).unwrap();
                    let parent_state = match self.store.get(parent_idx) {
                        Some(s) => s,
                        None => {
                            is_deleted = true;
                            assert(walk(d, idx as int) == seq![idx]);
                            assert(visited@ =~= visited@.drop_last() + seq![idx]);
                            break;
                        },
                    };
                    if !parent_state.contains_child(id) {
                        let tombstoned = match id.parse_mergeable() {
                            Some((expected_parent, key, _kind)) => {
                                if expected_parent.same_as(parent_id) {
                                    match parent_state.as_map_state() {
                                        Some(map_state) => map_state.mergeable_tombstone(key.as_str()).is_some(),
                                        None => false,
                                    }
                                } else {
                                    false
                                }
                            },
                            None => false,
                        };
                        if !tombstoned {
                            is_deleted = true;
                            assert(stops_at(d, idx as int));
                            assert(walk(d, idx as int) == seq![idx]);
                            assert(visited@ =~= visited@.drop_last() + seq![idx]);
                            break;
                        }
                    }
                    assert(!stops_at(d, idx as int));
                    proof {
                        lemma_walk_step(d, idx as int);
                        fuel = (fuel - 1) as nat;
                    }
                    let ghost prev = visited@;
                    idx = parent_idx;
                    visited.push(idx);
                    assert(visited@.drop_last() == prev);
                    assert(prev.drop_last() + seq![prev.last()] =~= prev);
                    assert(walk(d, prev.last() as int) == seq![prev.last()] + walk(d, idx as int));
                    assert(prev.drop_last() + walk(d, prev.last() as int) =~= prev + walk(d, idx as int));
                },
                None => {
                    is_deleted = !id.is_root() || id.is_mergeable();
                    assert(walk(d, idx as int) == seq![idx]);
                    assert(visited@ =~= visited@.drop_last() + seq![idx]);
                    break;
                },
            }
        }
        proof {
            lemma_walk_same_answer(d, start);
        }
        self.dead_containers_cache.set_all(&visited, is_deleted);
        is_deleted
    }
}

/// With a sound cache, `is_deleted` answers exactly whether the container
/// is deleted, and the cache stays sound.
pub proof fn law_is_deleted_with_sound_cache(before: DocStateView, after: DocStateView, idx: ContainerIdx, r: bool)
    requires
        before.arena.wf(),
        idx < before.arena.len(),
        cache_sound(before),
        after.arena == before.arena,
        after.store == before.store,
        r == (before.cache.contains_key(idx) || deleted(before, idx as int)),
        before.cache.contains_key(idx) ==> after.cache == before.cache,
        !before.cache.contains_key(idx) ==> forall|k: ContainerIdx|
            (#[trigger] after.cache.contains_key(k) <==> if walk(before, idx as int).contains(k) {
                r
            } else {
                before.cache.contains_key(k)
            }) && (after.cache.contains_key(k) ==> after.cache[k] == if walk(before, idx as int).contains(k) {
                true
            } else {
                before.cache[k]
            }),
    ensures
        r == deleted(before, idx as int),
        cache_sound(after),
{
    lemma_walk_same_answer(before, idx as int);
    assert forall|k: ContainerIdx| #[trigger] after.cache.contains_key(k) implies after.cache[k] && deleted(after, k as int) by {
        assert(deleted(after, k as int) == deleted(before, k as int)) by {
            assert(after == DocStateView { cache: after.cache, ..before });
            lemma_deleted_ignores_cache(before, after.cache, k as int);
        }
        if !before.cache.contains_key(idx) && walk(before, idx as int).contains(k) {
            let i = choose|i: int| 0 <= i < walk(before, idx as int).len() && walk(before, idx as int)[i] == k;
        }
    }
}

/// Whether a container is deleted does not depend on the cache.
pub proof fn lemma_deleted_ignores_cache(d: DocStateView, cache: Map<ContainerIdx, bool>, idx: int)
    ensures
        deleted(DocStateView { cache, ..d }, idx) == deleted(d, idx),
{
    lemma_deleted_within_ignores_cache(d, cache, idx, d.arena.parents.len());
}

proof fn lemma_deleted_within_ignores_cache(d: DocStateView, cache: Map<ContainerIdx, bool>, idx: int, n: nat)
    ensures
        deleted_within(DocStateView { cache, ..d }, idx, n) == deleted_within(d, idx, n),
    decreases n,
{
    let e = DocStateView { cache, ..d };
    if 0 <= idx < d.arena.parents.len() {
        match d.arena.parents[idx] {
            Some(p) => {
                if !(stops_at(d, idx) || n == 0) {
                    lemma_deleted_within_ignores_cache(d, cache, p as int, (n - 1) as nat);
                }
            },
            None => {},
        }
    }
}

} // verus!

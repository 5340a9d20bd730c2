//! Identifiers, values and the last-writer-wins register that a map entry holds.

use vstd::prelude::*;

verus! {

/// A peer (replica) identifier.
pub type PeerID = u64;

/// A Lamport timestamp.
pub type Lamport = u32;

/// An operation counter within one peer's history.
pub type Counter = i32;

/// The index of a container inside the document's arena.
pub type ContainerIdx = u32;

/// The kind of a container.
#[derive(Clone, Copy, Debug, PartialEq, Eq, Structural, Hash)]
pub enum ContainerType {
    Text,
    MapContainer,
    List,
    MovableList,
    Tree,
    Counter,
}

/// An `(peer, lamport)` stamp. Stamps are ordered by lamport first and by
/// peer second; this is the total order used for last-writer-wins.
#[derive(Clone, Copy, Debug, PartialEq, Eq, Structural, Hash, PartialOrd, Ord)]
pub struct IdLp {
    pub lamport: Lamport,
    pub peer: PeerID,
}

impl View for IdLp {
    type V = IdLp;

    open spec fn view(&self) -> IdLp {
        *self
    }
}

/// `a` is strictly earlier than `b` in the `(lamport, peer)` order.
pub open spec fn idlp_lt(a: IdLp, b: IdLp) -> bool {
    a.lamport < b.lamport || (a.lamport == b.lamport && a.peer < b.peer)
}

/// `a` is earlier than or equal to `b` in the `(lamport, peer)` order.
pub open spec fn idlp_le(a: IdLp, b: IdLp) -> bool {
    idlp_lt(a, b) || a == b
}

impl IdLp {
    pub fn new(peer: PeerID, lamport: Lamport) -> (r: IdLp)
        ensures
            r.peer == peer,
            r.lamport == lamport,
    {
        IdLp { lamport, peer }
    }

    /// Strict comparison in the `(lamport, peer)` order.
    pub fn lt(&self, other: &IdLp) -> (r: bool)
        ensures
            r == idlp_lt(*self, *other),
    {
        self.lamport < other.lamport || (self.lamport == other.lamport && self.peer < other.peer)
    }

    /// Non-strict comparison in the `(lamport, peer)` order.
    pub fn le(&self, other: &IdLp) -> (r: bool)
        ensures
            r == idlp_le(*self, *other),
    {
        self.lamport < other.lamport || (self.lamport == other.lamport && self.peer <= other.peer)
    }
}

/// The identifier of a container.
///
/// `Mergeable` identifiers live in a reserved root namespace: they are
/// derived deterministically from their parent container, the key under
/// which they hang and their kind.
#[derive(Debug, PartialEq, Eq, Hash)]
pub enum ContainerID {
    Root { name: String, container_type: ContainerType },
    Normal { peer: PeerID, counter: Counter, container_type: ContainerType },
    Mergeable { parent: Box<ContainerID>, key: String, container_type: ContainerType },
}

/// The mathematical value of a [`ContainerID`].
pub enum ContainerIdView {
    Root { name: Seq<char>, container_type: ContainerType },
    Normal { peer: PeerID, counter: Counter, container_type: ContainerType },
    Mergeable { parent: Box<ContainerIdView>, key: Seq<char>, container_type: ContainerType },
}

pub open spec fn cid_view(c: ContainerID) -> ContainerIdView
    decreases c,
{
    match c {
        ContainerID::Root { name, container_type } => ContainerIdView::Root {
            name: name@,
            container_type,
        },
        ContainerID::Normal { peer, counter, container_type } => ContainerIdView::Normal {
            peer,
            counter,
            container_type,
        },
        ContainerID::Mergeable { parent, key, container_type } => ContainerIdView::Mergeable {
            parent: Box::new(cid_view(*parent)),
            key: key@,
            container_type,
        },
    }
}

impl View for ContainerID {
    type V = ContainerIdView;

    open spec fn view(&self) -> ContainerIdView {
        cid_view(*self)
    }
}

impl ContainerIdView {
    pub open spec fn is_mergeable(self) -> bool {
        self is Mergeable
    }

    /// Roots, including the reserved mergeable namespace, are roots.
    pub open spec fn is_root(self) -> bool {
        self is Root || self is Mergeable
    }

    pub open spec fn kind(self) -> ContainerType {
        match self {
            ContainerIdView::Root { container_type, .. } => container_type,
            ContainerIdView::Normal { container_type, .. } => container_type,
            ContainerIdView::Mergeable { container_type, .. } => container_type,
        }
    }
}

impl Clone for ContainerID {
    fn clone(&self) -> (r: ContainerID)
        ensures
            r == *self,
    {
        self.clone_id()
    }
}

impl ContainerID {
    /// The identifier of the mergeable child of `parent` under `key` with
    /// the given kind.
    pub fn new_mergeable(parent: &ContainerID, key: &str, container_type: ContainerType) -> (r:
        ContainerID)
        ensures
            r@ == (ContainerIdView::Mergeable {
                parent: Box::new(parent@),
                key: key@,
                container_type,
            }),
    {
        ContainerID::Mergeable {
            parent: Box::new(parent.clone_id()),
            key: key.to_owned(),
            container_type,
        }
    }

    pub fn is_mergeable(&self) -> (r: bool)
        ensures
            r == self@.is_mergeable(),
    {
        match self {
            ContainerID::Mergeable { .. } => true,
            _ => false,
        }
    }

    pub fn is_root(&self) -> (r: bool)
        ensures
            r == self@.is_root(),
    {
        match self {
            ContainerID::Normal { .. } => false,
            _ => true,
        }
    }

    pub fn container_type(&self) -> (r: ContainerType)
        ensures
            r == self@.kind(),
    {
        match self {
            ContainerID::Root { container_type, .. } => *container_type,
            ContainerID::Normal { container_type, .. } => *container_type,
            ContainerID::Mergeable { container_type, .. } => *container_type,
        }
    }

    /// Split a mergeable identifier into its parent, key and kind.
    pub fn parse_mergeable(&self) -> (r: Option<(ContainerID, String, ContainerType)>)
        ensures
            match self@ {
                ContainerIdView::Mergeable { parent, key, container_type } => r matches Some(
                    t,
                ) && t.0@ == *parent && t.1@ == key && t.2 == container_type,
                _ => r is None,
            },
    {
        match self {
            ContainerID::Mergeable { parent, key, container_type } => Some(
                ((**parent).clone_id(), key.clone(), *container_type),
            ),
            _ => None,
        }
    }

    /// A copy with the same value.
    pub fn clone_id(&self) -> (r: ContainerID)
        ensures
            r == *self,
            r@ == self@,
        decreases self,
    {
        match self {
            ContainerID::Root { name, container_type } => ContainerID::Root {
                name: name.clone(),
                container_type: *container_type,
            },
            ContainerID::Normal { peer, counter, container_type } => ContainerID::Normal {
                peer: *peer,
                counter: *counter,
                container_type: *container_type,
            },
            ContainerID::Mergeable { parent, key, container_type } => {
                proof {
                    assert(decreases_to!(*self => **parent));
                }
                ContainerID::Mergeable {
                    parent: Box::new((**parent).clone_id()),
                    key: key.clone(),
                    container_type: *container_type,
                }
            },
        }
    }

    /// Equality of identifiers by value.
    pub fn same_as(&self, other: &ContainerID) -> (r: bool)
        ensures
            r == (self@ == other@),
        decreases self,
    {
        match (self, other) {
            (
                ContainerID::Root { name: n1, container_type: t1 },
                ContainerID::Root { name: n2, container_type: t2 },
            ) => *t1 == *t2 && *n1 == *n2,
            (
                ContainerID::Normal { peer: p1, counter: c1, container_type: t1 },
                ContainerID::Normal { peer: p2, counter: c2, container_type: t2 },
            ) => *p1 == *p2 && *c1 == *c2 && *t1 == *t2,
            (
                ContainerID::Mergeable { parent: a1, key: k1, container_type: t1 },
                ContainerID::Mergeable { parent: a2, key: k2, container_type: t2 },
            ) => {
                assert(self@ == (ContainerIdView::Mergeable {
                    parent: Box::new(cid_view(**a1)),
                    key: k1@,
                    container_type: *t1,
                }));
                assert(other@ == (ContainerIdView::Mergeable {
                    parent: Box::new(cid_view(**a2)),
                    key: k2@,
                    container_type: *t2,
                }));
                if *t1 != *t2 || !(*k1 == *k2) {
                    return false;
                }
                proof {
                    assert(decreases_to!(*self => **a1));
                }
                let r = (**a1).same_as(&**a2);
                proof {
                    if r {
                        assert(self@ == other@);
                    } else {
                        assert(cid_view(**a1) != cid_view(**a2));
                        assert(self@->Mergeable_parent != other@->Mergeable_parent);
                    }
                }
                r
            },
            _ => false,
        }
    }
}

} // verus!

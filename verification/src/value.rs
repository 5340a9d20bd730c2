//! Values stored in a map, and the last-writer-wins register of one key.

use vstd::prelude::*;
use crate::types::{cid_view, idlp_lt, ContainerID, ContainerIdView, IdLp, Lamport, PeerID};

verus! {

/// A document value. A double is carried as its IEEE-754 bit pattern.
#[derive(Debug, PartialEq, Eq, Hash)]
pub enum LoroValue {
    Null,
    Bool(bool),
    Double(u64),
    I64(i64),
    Binary(Vec<u8>),
    String(String),
    List(Vec<LoroValue>),
    Dict(Vec<(String, LoroValue)>),
    Container(ContainerID),
}

/// The mathematical value of a [`LoroValue`].
pub enum LoroValueView {
    Null,
    Bool(bool),
    Double(u64),
    I64(i64),
    Binary(Seq<u8>),
    String(Seq<char>),
    List(Seq<LoroValueView>),
    Dict(Seq<(Seq<char>, LoroValueView)>),
    Container(ContainerIdView),
}

pub open spec fn value_view(v: LoroValue) -> LoroValueView
    decreases v,
{
    match v {
        LoroValue::Null => LoroValueView::Null,
        LoroValue::Bool(b) => LoroValueView::Bool(b),
        LoroValue::Double(d) => LoroValueView::Double(d),
        LoroValue::I64(i) => LoroValueView::I64(i),
        LoroValue::Binary(b) => LoroValueView::Binary(b@),
        LoroValue::String(s) => LoroValueView::String(s@),
        LoroValue::List(l) => LoroValueView::List(values_view(l@)),
        LoroValue::Dict(d) => LoroValueView::Dict(entries_view(d@)),
        LoroValue::Container(c) => LoroValueView::Container(c@),
    }
}

pub open spec fn values_view(s: Seq<LoroValue>) -> Seq<LoroValueView>
    decreases s,
{
    if s.len() == 0 {
        Seq::empty()
    } else {
        values_view(s.drop_last()).push(value_view(s.last()))
    }
}

pub open spec fn entries_view(s: Seq<(String, LoroValue)>) -> Seq<(Seq<char>, LoroValueView)>
    decreases s,
{
    if s.len() == 0 {
        Seq::empty()
    } else {
        entries_view(s.drop_last()).push((s.last().0@, value_view(s.last().1)))
    }
}

impl View for LoroValue {
    type V = LoroValueView;

    open spec fn view(&self) -> LoroValueView {
        value_view(*self)
    }
}

impl LoroValue {
    /// A copy with the same value.
    pub fn clone_value(&self) -> (r: LoroValue)
        ensures
            r@ == self@,
        decreases self,
    {
        match self {
            LoroValue::Null => LoroValue::Null,
            LoroValue::Bool(b) => LoroValue::Bool(*b),
            LoroValue::Double(d) => LoroValue::Double(*d),
            LoroValue::I64(i) => LoroValue::I64(*i),
            LoroValue::Binary(b) => LoroValue::Binary(b.clone()),
            LoroValue::String(s) => LoroValue::String(s.clone()),
            LoroValue::Container(c) => LoroValue::Container(c.clone_id()),
            LoroValue::List(l) => {
                let mut out: Vec<LoroValue> = Vec::new();
                let mut i: usize = 0;
                while i < l.len()
                    invariant
                        i <= l@.len(),
                        *self == LoroValue::List(*l),
                        values_view(out@) == values_view(l@.take(i as int)),
                    decreases l@.len() - i,
                {
                    proof {
                        assert(decreases_to!(*self => self->List_0));
                    }
                    let c = l[i].clone_value();
                    let ghost before = out@;
                    out.push(c);
                    assert(out@.drop_last() == before);
                    assert(l@.take(i + 1).drop_last() == l@.take(i as int));
                    i = i + 1;
                }
                assert(l@.take(l@.len() as int) == l@);
                LoroValue::List(out)
            },
            LoroValue::Dict(d) => {
                let mut out: Vec<(String, LoroValue)> = Vec::new();
                let mut i: usize = 0;
                while i < d.len()
                    invariant
                        i <= d@.len(),
                        *self == LoroValue::Dict(*d),
                        entries_view(out@) == entries_view(d@.take(i as int)),
                    decreases d@.len() - i,
                {
                    proof {
                        assert(decreases_to!(*self => self->Dict_0));
                        assert(decreases_to!(d@[i as int] => d@[i as int].1));
                    }
                    let c = d[i].1.clone_value();
                    let k = d[i].0.clone();
                    let ghost before = out@;
                    out.push((k, c));
                    assert(out@.drop_last() == before);
                    assert(d@.take(i + 1).drop_last() == d@.take(i as int));
                    i = i + 1;
                }
                assert(d@.take(d@.len() as int) == d@);
                LoroValue::Dict(out)
            },
        }
    }

    /// The container this value refers to, if it is a container value.
    pub fn as_container(&self) -> (r: Option<&ContainerID>)
        ensures
            match self@ {
                LoroValueView::Container(c) => r matches Some(x) && x@ == c,
                _ => r is None,
            },
    {
        match self {
            LoroValue::Container(c) => Some(c),
            _ => None,
        }
    }
}

/// The last-writer-wins register of one key: the value (absent for a
/// deleted key) and the stamp of the write that set it.
#[derive(Debug, PartialEq, Eq)]
pub struct MapValue {
    pub value: Option<LoroValue>,
    pub lamp: Lamport,
    pub peer: PeerID,
}

/// The mathematical value of a [`MapValue`].
pub struct MapValueView {
    pub value: Option<LoroValueView>,
    pub lamp: Lamport,
    pub peer: PeerID,
}

pub open spec fn opt_value_view(v: Option<LoroValue>) -> Option<LoroValueView> {
    match v {
        Some(x) => Some(x@),
        None => None,
    }
}

impl View for MapValue {
    type V = MapValueView;

    open spec fn view(&self) -> MapValueView {
        MapValueView { value: opt_value_view(self.value), lamp: self.lamp, peer: self.peer }
    }
}

impl MapValueView {
    /// The stamp of the write.
    pub open spec fn idlp(self) -> IdLp {
        IdLp { lamport: self.lamp, peer: self.peer }
    }

    /// The register holds a container value.
    pub open spec fn container(self) -> Option<ContainerIdView> {
        match self.value {
            Some(LoroValueView::Container(c)) => Some(c),
            _ => None,
        }
    }
}

/// Registers are ordered by their stamps: `a` was written after `b`.
pub open spec fn map_value_gt(a: MapValueView, b: MapValueView) -> bool {
    idlp_lt(b.idlp(), a.idlp())
}

impl MapValue {
    pub fn idlp(&self) -> (r: IdLp)
        ensures
            r == self@.idlp(),
    {
        IdLp::new(self.peer, self.lamp)
    }

    /// `self` was written after `other`.
    pub fn gt(&self, other: &MapValue) -> (r: bool)
        ensures
            r == map_value_gt(self@, other@),
    {
        other.idlp().lt(&self.idlp())
    }

    /// A copy with the same value.
    pub fn clone_map_value(&self) -> (r: MapValue)
        ensures
            r@ == self@,
    {
        let value = match &self.value {
            Some(v) => Some(v.clone_value()),
            None => None,
        };
        MapValue { value, lamp: self.lamp, peer: self.peer }
    }

    /// The container held by the register, if any.
    pub fn container(&self) -> (r: Option<&ContainerID>)
        ensures
            match self@.container() {
                Some(c) => r matches Some(x) && x@ == c,
                None => r is None,
            },
    {
        match &self.value {
            Some(v) => v.as_container(),
            None => None,
        }
    }
}

} // verus!

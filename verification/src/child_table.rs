//! The table from child container identifiers to the key they hang under.

use vstd::prelude::*;
use crate::keys::{compare_keys, KeyOrder};
use crate::types::{ContainerID, ContainerIdView};

verus! {

/// No identifier occurs twice.
pub open spec fn unique_ids(s: Seq<(ContainerID, String)>) -> bool {
    forall|i: int, j: int| 0 <= i < j < s.len() ==> #[trigger] s[i].0@ != #[trigger] s[j].0@
}

/// The map that a sequence of `(child, key)` entries denotes.
pub open spec fn seq_child_map(s: Seq<(ContainerID, String)>) -> Map<ContainerIdView, Seq<char>>
    decreases s.len(),
{
    if s.len() == 0 {
        Map::empty()
    } else {
        seq_child_map(s.drop_last()).insert(s.last().0@, s.last().1@)
    }
}

/// `m` without the mergeable children registered under `key`.
pub open spec fn without_mergeable_under(m: Map<ContainerIdView, Seq<char>>, key: Seq<char>) -> Map<
    ContainerIdView,
    Seq<char>,
> {
    m.restrict(m.dom().filter(|c: ContainerIdView| !(c.is_mergeable() && m[c] == key)))
}

/// `r` lists every mergeable child of `m` once, each with the key it hangs
/// under.
pub open spec fn lists_mergeable_children(m: Map<ContainerIdView, Seq<char>>, r: Seq<(String, ContainerID)>) -> bool {
    &&& forall|i: int| 0 <= i < r.len() ==> #[trigger] m.contains_key(r[i].1@)
        && r[i].1@.is_mergeable() && m[r[i].1@] == r[i].0@
    &&& forall|c: ContainerIdView| #[trigger] m.contains_key(c) && c.is_mergeable() ==> exists|i: int|
        0 <= i < r.len() && r[i].1@ == c
    &&& forall|i: int, j: int| 0 <= i < j < r.len() ==> #[trigger] r[i].1@ != #[trigger] r[j].1@
}

/// The mergeable children that `m` registers under `key`.
pub open spec fn mergeable_under(m: Map<ContainerIdView, Seq<char>>, key: Seq<char>) -> Set<
    ContainerIdView,
> {
    m.dom().filter(|c: ContainerIdView| c.is_mergeable() && m[c] == key)
}

pub proof fn lemma_seq_child_map(s: Seq<(ContainerID, String)>)
    requires
        unique_ids(s),
    ensures
        seq_child_map(s).dom().finite(),
        forall|i: int|
            0 <= i < s.len() ==> #[trigger] seq_child_map(s).contains_key(s[i].0@)
                && seq_child_map(s)[s[i].0@] == s[i].1@,
        forall|k: ContainerIdView| #[trigger]
            seq_child_map(s).contains_key(k) ==> exists|i: int| 0 <= i < s.len() && s[i].0@ == k,
    decreases s.len(),
{
    if s.len() > 0 {
        let t = s.drop_last();
        assert(unique_ids(t)) by {
            assert forall|i: int, j: int| 0 <= i < j < t.len() implies #[trigger] t[i].0@
                != #[trigger] t[j].0@ by {
                assert(t[i] == s[i] && t[j] == s[j]);
            }
        }
        lemma_seq_child_map(t);
        assert forall|i: int| 0 <= i < s.len() implies #[trigger] seq_child_map(s).contains_key(
            s[i].0@,
        ) && seq_child_map(s)[s[i].0@] == s[i].1@ by {
            if i < s.len() - 1 {
                assert(t[i] == s[i]);
                assert(s[i].0@ != s.last().0@);
            }
        }
        assert forall|k: ContainerIdView| #[trigger] seq_child_map(s).contains_key(k) implies exists|
            i: int,
        | 0 <= i < s.len() && s[i].0@ == k by {
            if k != s.last().0@ {
                assert(seq_child_map(t).contains_key(k));
                let i = choose|i: int| 0 <= i < t.len() && t[i].0@ == k;
                assert(s[i] == t[i]);
            } else {
                assert(s[s.len() - 1].0@ == k);
            }
        }
    }
}

/// Entry sequences that agree entry by entry denote the same map.
pub proof fn lemma_child_map_pointwise(s: Seq<(ContainerID, String)>, t: Seq<(ContainerID, String)>)
    requires
        s.len() == t.len(),
        forall|i: int| 0 <= i < s.len() ==> #[trigger] s[i].0@ == t[i].0@ && s[i].1@ == t[i].1@,
    ensures
        seq_child_map(s) == seq_child_map(t),
    decreases s.len(),
{
    if s.len() > 0 {
        lemma_child_map_pointwise(s.drop_last(), t.drop_last());
        assert(s[s.len() - 1].0@ == t[t.len() - 1].0@);
    }
}

/// Child containers of a map, each with the key it hangs under.
#[derive(Debug)]
pub struct ChildTable {
    entries: Vec<(ContainerID, String)>,
}

impl View for ChildTable {
    type V = Map<ContainerIdView, Seq<char>>;

    closed spec fn view(&self) -> Map<ContainerIdView, Seq<char>> {
        seq_child_map(self.entries@)
    }
}

impl ChildTable {
    pub closed spec fn entry_seq(&self) -> Seq<(ContainerID, String)> {
        self.entries@
    }

    pub closed spec fn wf(&self) -> bool {
        unique_ids(self.entries@)
    }

    pub proof fn lemma_view(&self)
        requires
            self.wf(),
        ensures
            unique_ids(self.entry_seq()),
            self@ == seq_child_map(self.entry_seq()),
            self@.dom().finite(),
            forall|i: int|
                0 <= i < self.entry_seq().len() ==> #[trigger] self@.contains_key(
                    self.entry_seq()[i].0@,
                ) && self@[self.entry_seq()[i].0@] == self.entry_seq()[i].1@,
            forall|k: ContainerIdView| #[trigger]
                self@.contains_key(k) ==> exists|i: int|
                    0 <= i < self.entry_seq().len() && self.entry_seq()[i].0@ == k,
    {
        lemma_seq_child_map(self.entries@);
        assert forall|k: ContainerIdView| #[trigger] self@.contains_key(k) implies exists|i: int|
            0 <= i < self.entry_seq().len() && self.entry_seq()[i].0@ == k by {
            assert(seq_child_map(self.entries@).contains_key(k));
            let i = choose|i: int| 0 <= i < self.entries@.len() && self.entries@[i].0@ == k;
            assert(self.entry_seq()[i].0@ == k);
        }
    }

    pub fn new() -> (r: ChildTable)
        ensures
            r.wf(),
            r@ == Map::<ContainerIdView, Seq<char>>::empty(),
    {
        ChildTable { entries: Vec::new() }
    }

    /// The entries, in registration order.
    pub fn as_slice(&self) -> (r: &[(ContainerID, String)])
        ensures
            r@ == self.entry_seq(),
    {
        self.entries.as_slice()
    }

    fn position(&self, id: &ContainerID) -> (r: Option<usize>)
        requires
            self.wf(),
        ensures
            match r {
                Some(p) => p < self.entries@.len() && self.entries@[p as int].0@ == id@,
                None => forall|i: int|
                    0 <= i < self.entries@.len() ==> #[trigger] self.entries@[i].0@ != id@,
            },
    {
        let mut i: usize = 0;
        while i < self.entries.len()
            invariant
                i <= self.entries@.len(),
                forall|j: int| 0 <= j < i ==> #[trigger] self.entries@[j].0@ != id@,
            decreases self.entries@.len() - i,
        {
            if self.entries[i].0.same_as(id) {
                return Some(i);
            }
            i = i + 1;
        }
        None
    }

    pub fn contains(&self, id: &ContainerID) -> (r: bool)
        requires
            self.wf(),
        ensures
            r == self@.contains_key(id@),
    {
        proof {
            self.lemma_view();
        }
        match self.position(id) {
            Some(_) => true,
            None => false,
        }
    }

    pub fn get(&self, id: &ContainerID) -> (r: Option<&String>)
        requires
            self.wf(),
        ensures
            match r {
                Some(k) => self@.contains_key(id@) && k@ == self@[id@],
                None => !self@.contains_key(id@),
            },
    {
        proof {
            self.lemma_view();
        }
        match self.position(id) {
            Some(p) => {
                assert(self@.contains_key(self.entry_seq()[p as int].0@));
                Some(&self.entries[p].1)
            },
            None => None,
        }
    }

    /// Register `id` under `key`, replacing an earlier key of `id`.
    pub fn insert(&mut self, id: ContainerID, key: String)
        requires
            old(self).wf(),
        ensures
            final(self).wf(),
            final(self)@ == old(self)@.insert(id@, key@),
    {
        proof {
            self.lemma_view();
        }
        let ghost s = self.entries@;
        let ghost iv = id@;
        let ghost kv = key@;
        match self.position(&id) {
            Some(p) => {
                let mut e = (id, key);
                std::mem::swap(&mut self.entries[p], &mut e);
                let ghost t = self.entries@;
                assert(unique_ids(t)) by {
                    assert forall|i: int, j: int| 0 <= i < j < t.len() implies #[trigger] t[i].0@
                        != #[trigger] t[j].0@ by {
                        assert(s[i].0@ == t[i].0@ || i == p);
                        assert(s[j].0@ == t[j].0@ || j == p);
                    }
                }
                proof {
                    lemma_seq_child_map(t);
                    assert(seq_child_map(t) =~= seq_child_map(s).insert(iv, kv)) by {
                        assert forall|x: ContainerIdView| #[trigger] seq_child_map(t).contains_key(x)
                            <==> seq_child_map(s).insert(iv, kv).contains_key(x) by {
                            if seq_child_map(t).contains_key(x) {
                                let i = choose|i: int| 0 <= i < t.len() && t[i].0@ == x;
                                if i != p {
                                    assert(s[i] == t[i]);
                                }
                            }
                            if seq_child_map(s).contains_key(x) {
                                let i = choose|i: int| 0 <= i < s.len() && s[i].0@ == x;
                                if i != p {
                                    assert(s[i] == t[i]);
                                    assert(seq_child_map(t).contains_key(t[i].0@));
                                } else {
                                    assert(seq_child_map(t).contains_key(t[p as int].0@));
                                }
                            }
                            if x == iv {
                                assert(seq_child_map(t).contains_key(t[p as int].0@));
                            }
                        }
                        assert forall|x: ContainerIdView| #[trigger] seq_child_map(t).contains_key(
                            x,
                        ) implies seq_child_map(t)[x] == seq_child_map(s).insert(iv, kv)[x] by {
                            let i = choose|i: int| 0 <= i < t.len() && t[i].0@ == x;
                            if i != p {
                                assert(s[i] == t[i]);
                            }
                        }
                    }
                }
            },
            None => {
                self.entries.push((id, key));
                let ghost t = self.entries@;
                assert(t.drop_last() == s);
                assert(unique_ids(t)) by {
                    assert forall|i: int, j: int| 0 <= i < j < t.len() implies #[trigger] t[i].0@
                        != #[trigger] t[j].0@ by {
                        assert(t[i] == s[i]);
                        if j < s.len() {
                            assert(t[j] == s[j]);
                        }
                    }
                }
            },
        }
    }

    /// Remove `id`; whether it was registered comes back.
    pub fn remove(&mut self, id: &ContainerID) -> (r: bool)
        requires
            old(self).wf(),
        ensures
            final(self).wf(),
            final(self)@ == old(self)@.remove(id@),
            r == old(self)@.contains_key(id@),
    {
        proof {
            self.lemma_view();
        }
        let ghost s = self.entries@;
        match self.position(id) {
            Some(p) => {
                self.entries.remove(p);
                let ghost t = self.entries@;
                assert(unique_ids(t)) by {
                    assert forall|i: int, j: int| 0 <= i < j < t.len() implies #[trigger] t[i].0@
                        != #[trigger] t[j].0@ by {
                        if i < p && j >= p {
                            assert(t[i] == s[i] && t[j] == s[j + 1]);
                        } else if j < p {
                            assert(t[i] == s[i] && t[j] == s[j]);
                        } else {
                            assert(t[i] == s[i + 1] && t[j] == s[j + 1]);
                        }
                    }
                }
                proof {
                    lemma_seq_child_map(t);
                    assert(seq_child_map(t) =~= seq_child_map(s).remove(id@)) by {
                        assert forall|x: ContainerIdView| #[trigger] seq_child_map(t).contains_key(x)
                            <==> seq_child_map(s).remove(id@).contains_key(x) by {
                            if seq_child_map(t).contains_key(x) {
                                let i = choose|i: int| 0 <= i < t.len() && t[i].0@ == x;
                                if i < p {
                                    assert(s[i] == t[i]);
                                } else {
                                    assert(s[i + 1] == t[i]);
                                }
                            }
                            if seq_child_map(s).remove(id@).contains_key(x) {
                                let i = choose|i: int| 0 <= i < s.len() && s[i].0@ == x;
                                if i < p {
                                    assert(s[i] == t[i]);
                                    assert(seq_child_map(t).contains_key(t[i].0@));
                                } else if i > p {
                                    assert(s[i] == t[i - 1]);
                                    assert(seq_child_map(t).contains_key(t[i - 1].0@));
                                }
                            }
                        }
                        assert forall|x: ContainerIdView| #[trigger] seq_child_map(t).contains_key(
                            x,
                        ) implies seq_child_map(t)[x] == seq_child_map(s).remove(id@)[x] by {
                            let i = choose|i: int| 0 <= i < t.len() && t[i].0@ == x;
                            if i < p {
                                assert(s[i] == t[i]);
                            } else {
                                assert(s[i + 1] == t[i]);
                            }
                        }
                    }
                }
                assert(seq_child_map(s).contains_key(s[p as int].0@));
                true
            },
            None => {
                assert(!seq_child_map(s).contains_key(id@));
                assert(seq_child_map(s).remove(id@) =~= seq_child_map(s));
                false
            },
        }
    }

    /// The mergeable children registered under `key`, each once.
    pub fn mergeable_ids_for_key(&self, key: &str) -> (r: Vec<ContainerID>)
        requires
            self.wf(),
        ensures
            forall|i: int| 0 <= i < r@.len() ==> #[trigger] mergeable_under(self@, key@).contains(r@[i]@),
            forall|c: ContainerIdView| #[trigger] mergeable_under(self@, key@).contains(c) ==> exists|i: int|
                0 <= i < r@.len() && r@[i]@ == c,
            forall|i: int, j: int| 0 <= i < j < r@.len() ==> #[trigger] r@[i]@ != #[trigger] r@[j]@,
    {
        let all = self.mergeable_entries();
        let mut r: Vec<ContainerID> = Vec::new();
        let ghost mut pos: Seq<int> = Seq::empty();
        let mut i: usize = 0;
        while i < all.len()
            invariant
                i <= all@.len(),
                r@.len() == pos.len(),
                forall|j: int| 0 <= j < pos.len() ==> 0 <= #[trigger] pos[j] < i && r@[j]@ == all@[pos[j]].1@ && all@[pos[j]].0@ == key@,
                forall|a: int, b: int| 0 <= a < b < pos.len() ==> #[trigger] pos[a] < #[trigger] pos[b],
                forall|k: int| 0 <= k < i && (#[trigger] all@[k]).0@ == key@ ==> exists|j: int| 0 <= j < pos.len() && pos[j] == k,
            decreases all@.len() - i,
        {
            if compare_keys(all[i].0.as_str(), key) == KeyOrder::Equal {
                r.push(all[i].1.clone_id());
                proof {
                    let ghost old_pos = pos;
                    pos = pos.push(i as int);
                    assert forall|k: int| 0 <= k < i + 1 && (#[trigger] all@[k]).0@ == key@ implies exists|j: int| 0 <= j < pos.len() && pos[j] == k by {
                        if k < i {
                            let j = choose|j: int| 0 <= j < old_pos.len() && old_pos[j] == k;
                            assert(pos[j] == k);
                        } else {
                            assert(pos[pos.len() - 1] == k);
                        }
                    }
                }
            }
            i = i + 1;
        }
        assert forall|a: int, b: int| 0 <= a < b < r@.len() implies #[trigger] r@[a]@ != #[trigger] r@[b]@ by {
            assert(pos[a] < pos[b]);
        }
        assert forall|c: ContainerIdView| #[trigger] mergeable_under(self@, key@).contains(c) implies exists|j: int|
            0 <= j < r@.len() && r@[j]@ == c by {
            let k = choose|k: int| 0 <= k < all@.len() && all@[k].1@ == c;
            assert(all@[k].0@ == key@);
            let j = choose|j: int| 0 <= j < pos.len() && pos[j] == k;
            assert(r@[j]@ == c);
        }
        assert forall|j: int| 0 <= j < r@.len() implies #[trigger] mergeable_under(self@, key@).contains(r@[j]@) by {
            assert(self@.contains_key(all@[pos[j]].1@));
        }
        r
    }

    /// Some mergeable child registered under `key`, if there is one.
    pub fn first_mergeable_for_key(&self, key: &str) -> (r: Option<&ContainerID>)
        requires
            self.wf(),
        ensures
            match r {
                Some(c) => mergeable_under(self@, key@).contains(c@),
                None => mergeable_under(self@, key@) == Set::<ContainerIdView>::empty(),
            },
    {
        proof {
            self.lemma_view();
        }
        let ghost s = self.entries@;
        let mut i: usize = 0;
        while i < self.entries.len()
            invariant
                s == self.entries@,
                self.wf(),
                i <= s.len(),
                forall|k: int| 0 <= k < i ==> !(#[trigger] s[k].0@.is_mergeable() && s[k].1@ == key@),
            decreases s.len() - i,
        {
            if self.entries[i].0.is_mergeable() && compare_keys(self.entries[i].1.as_str(), key) == KeyOrder::Equal {
                proof {
                    self.lemma_view();
                }
                assert(self@.contains_key(self.entry_seq()[i as int].0@));
                return Some(&self.entries[i].0);
            }
            i = i + 1;
        }
        assert(mergeable_under(self@, key@) =~= Set::<ContainerIdView>::empty()) by {
            assert forall|c: ContainerIdView| !#[trigger] mergeable_under(self@, key@).contains(c) by {
                if mergeable_under(self@, key@).contains(c) {
                    let k = choose|k: int| 0 <= k < s.len() && s[k].0@ == c;
                    assert(self@[s[k].0@] == s[k].1@);
                }
            }
        }
        None
    }

    /// Every mergeable child with the key it hangs under.
    pub fn mergeable_entries(&self) -> (r: Vec<(String, ContainerID)>)
        requires
            self.wf(),
        ensures
            lists_mergeable_children(self@, r@),
    {
        proof {
            self.lemma_view();
        }
        let ghost s = self.entries@;
        let mut r: Vec<(String, ContainerID)> = Vec::new();
        let ghost mut pos: Seq<int> = Seq::empty();
        let mut i: usize = 0;
        while i < self.entries.len()
            invariant
                s == self.entries@,
                i <= s.len(),
                r@.len() == pos.len(),
                forall|j: int| 0 <= j < pos.len() ==> 0 <= #[trigger] pos[j] < i && r@[j].1@ == s[pos[j]].0@ && r@[j].0@ == s[pos[j]].1@ && s[pos[j]].0@.is_mergeable(),
                forall|a: int, b: int| 0 <= a < b < pos.len() ==> #[trigger] pos[a] < #[trigger] pos[b],
                forall|k: int| 0 <= k < i && (#[trigger] s[k]).0@.is_mergeable() ==> exists|j: int| 0 <= j < pos.len() && pos[j] == k,
            decreases s.len() - i,
        {
            if self.entries[i].0.is_mergeable() {
                r.push((self.entries[i].1.clone(), self.entries[i].0.clone_id()));
                proof {
                    let ghost old_pos = pos;
                    pos = pos.push(i as int);
                    assert forall|k: int| 0 <= k < i + 1 && (#[trigger] s[k]).0@.is_mergeable() implies exists|j: int| 0 <= j < pos.len() && pos[j] == k by {
                        if k < i {
                            let j = choose|j: int| 0 <= j < old_pos.len() && old_pos[j] == k;
                            assert(pos[j] == k);
                        } else {
                            assert(pos[pos.len() - 1] == k);
                        }
                    }
                }
            }
            i = i + 1;
        }
        assert forall|a: int, b: int| 0 <= a < b < r@.len() implies #[trigger] r@[a].1@ != #[trigger] r@[b].1@ by {
            assert(pos[a] < pos[b]);
        }
        assert forall|c: ContainerIdView| #[trigger] self@.contains_key(c) && c.is_mergeable() implies exists|j: int|
            0 <= j < r@.len() && r@[j].1@ == c by {
            let k = choose|k: int| 0 <= k < s.len() && s[k].0@ == c;
            assert(s[k].0@.is_mergeable());
            let j = choose|j: int| 0 <= j < pos.len() && pos[j] == k;
            assert(r@[j].1@ == c);
        }
        assert forall|j: int| 0 <= j < r@.len() implies #[trigger] self@.contains_key(r@[j].1@)
                && r@[j].1@.is_mergeable() && self@[r@[j].1@] == r@[j].0@ by {
            assert(self@.contains_key(s[pos[j]].0@) && self@[s[pos[j]].0@] == s[pos[j]].1@);
        }
        r
    }

    /// Remove every mergeable child registered under `key`; other entries stay.
    pub fn remove_mergeable_under(&mut self, key: &str)
        requires
            old(self).wf(),
        ensures
            final(self).wf(),
            final(self)@ == without_mergeable_under(old(self)@, key@),
    {
        let ids = self.mergeable_ids_for_key(key);
        let ghost o = self@;
        let ghost target = without_mergeable_under(o, key@);
        let mut j: usize = 0;
        while j < ids.len()
            invariant
                self.wf(),
                0 <= j <= ids@.len(),
                forall|i: int| 0 <= i < ids@.len() ==> #[trigger] mergeable_under(o, key@).contains(ids@[i]@),
                forall|c: ContainerIdView| #[trigger] mergeable_under(o, key@).contains(c) ==> exists|i: int|
                    0 <= i < ids@.len() && ids@[i]@ == c,
                forall|a: int, b: int| 0 <= a < b < ids@.len() ==> #[trigger] ids@[a]@ != #[trigger] ids@[b]@,
                forall|c: ContainerIdView| #[trigger] self@.contains_key(c) <==> (o.contains_key(c) && !exists|i: int| 0 <= i < j && ids@[i]@ == c),
                forall|c: ContainerIdView| #[trigger] self@.contains_key(c) ==> self@[c] == o[c],
            decreases ids@.len() - j,
        {
            let ghost before = self@;
            self.remove(&ids[j]);
            assert forall|c: ContainerIdView| #[trigger] self@.contains_key(c) <==> (o.contains_key(c) && !exists|i: int| 0 <= i < j + 1 && ids@[i]@ == c) by {
                if exists|i: int| 0 <= i < j + 1 && ids@[i]@ == c {
                    let i = choose|i: int| 0 <= i < j + 1 && ids@[i]@ == c;
                    if i < j {
                        assert(!before.contains_key(c));
                    }
                }
                if o.contains_key(c) && !exists|i: int| 0 <= i < j + 1 && ids@[i]@ == c {
                    assert(ids@[j as int]@ != c);
                }
            }
            j = j + 1;
        }
        assert(self@ =~= target) by {
            assert forall|c: ContainerIdView| #[trigger] self@.contains_key(c) <==> target.contains_key(c) by {
                if self@.contains_key(c) {
                    if mergeable_under(o, key@).contains(c) {
                        let i = choose|i: int| 0 <= i < ids@.len() && ids@[i]@ == c;
                    }
                }
                if target.contains_key(c) {
                    if exists|i: int| 0 <= i < ids@.len() && ids@[i]@ == c {
                        let i = choose|i: int| 0 <= i < ids@.len() && ids@[i]@ == c;
                        assert(mergeable_under(o, key@).contains(ids@[i]@));
                    }
                }
            }
        }
    }

    /// A copy with the same entries.
    pub fn clone_table(&self) -> (r: ChildTable)
        requires
            self.wf(),
        ensures
            r.wf(),
            r@ == self@,
    {
        let mut out: Vec<(ContainerID, String)> = Vec::new();
        let mut i: usize = 0;
        while i < self.entries.len()
            invariant
                i <= self.entries@.len(),
                out@.len() == i,
                forall|j: int| 0 <= j < i ==> #[trigger] out@[j].0@ == self.entries@[j].0@ && out@[j].1@ == self.entries@[j].1@,
            decreases self.entries@.len() - i,
        {
            out.push((self.entries[i].0.clone_id(), self.entries[i].1.clone()));
            i = i + 1;
        }
        proof {
            lemma_child_map_pointwise(out@, self.entries@);
            assert(unique_ids(out@)) by {
                assert forall|a: int, b: int| 0 <= a < b < out@.len() implies #[trigger] out@[a].0@ != #[trigger] out@[b].0@ by {
                    assert(self.entries@[a].0@ != self.entries@[b].0@);
                }
            }
        }
        ChildTable { entries: out }
    }
}

} // verus!

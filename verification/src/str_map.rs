//! A map from string keys to values, kept as a vector sorted by key.

use vstd::prelude::*;
use crate::keys::{compare_keys, key_lt, lemma_key_order, KeyOrder};
use crate::types::IdLp;
use crate::value::MapValue;

verus! {

/// Keys strictly increase along the sequence.
pub open spec fn sorted_keys<V>(s: Seq<(String, V)>) -> bool {
    forall|i: int, j: int| 0 <= i < j < s.len() ==> key_lt(#[trigger] s[i].0@, #[trigger] s[j].0@)
}

/// No key occurs twice.
pub open spec fn unique_keys<V>(s: Seq<(String, V)>) -> bool {
    forall|i: int, j: int| 0 <= i < j < s.len() ==> #[trigger] s[i].0@ != #[trigger] s[j].0@
}

/// The map that a sequence of entries denotes.
pub open spec fn seq_map<V: View>(s: Seq<(String, V)>) -> Map<Seq<char>, V::V>
    decreases s.len(),
{
    if s.len() == 0 {
        Map::empty()
    } else {
        seq_map(s.drop_last()).insert(s.last().0@, s.last().1@)
    }
}

pub proof fn lemma_sorted_unique<V>(s: Seq<(String, V)>)
    requires
        sorted_keys(s),
    ensures
        unique_keys(s),
{
    assert forall|i: int, j: int| 0 <= i < j < s.len() implies #[trigger] s[i].0@
        != #[trigger] s[j].0@ by {
        lemma_key_order(s[i].0@, s[j].0@, s[j].0@);
        lemma_key_order(s[j].0@, s[j].0@, s[j].0@);
    }
}

/// What `seq_map` holds when no key occurs twice.
pub proof fn lemma_seq_map<V: View>(s: Seq<(String, V)>)
    requires
        unique_keys(s),
    ensures
        seq_map(s).dom().finite(),
        seq_map(s).dom().len() == s.len(),
        forall|i: int|
            0 <= i < s.len() ==> #[trigger] seq_map(s).contains_key(s[i].0@) && seq_map(s)[s[i].0@]
                == s[i].1@,
        forall|k: Seq<char>|
            #[trigger] seq_map(s).contains_key(k) ==> exists|i: int| 0 <= i < s.len() && s[i].0@ == k,
    decreases s.len(),
{
    if s.len() > 0 {
        let t = s.drop_last();
        assert(unique_keys(t)) by {
            assert forall|i: int, j: int| 0 <= i < j < t.len() implies #[trigger] t[i].0@
                != #[trigger] t[j].0@ by {
                assert(t[i] == s[i] && t[j] == s[j]);
            }
        }
        lemma_seq_map(t);
        assert(!seq_map(t).contains_key(s.last().0@)) by {
            if seq_map(t).contains_key(s.last().0@) {
                let i = choose|i: int| 0 <= i < t.len() && t[i].0@ == s.last().0@;
                assert(s[i] == t[i]);
            }
        }
        assert forall|i: int| 0 <= i < s.len() implies #[trigger] seq_map(s).contains_key(s[i].0@)
            && seq_map(s)[s[i].0@] == s[i].1@ by {
            if i < s.len() - 1 {
                assert(t[i] == s[i]);
                assert(s[i].0@ != s.last().0@);
            }
        }
        assert forall|k: Seq<char>| #[trigger] seq_map(s).contains_key(k) implies exists|i: int|
            0 <= i < s.len() && s[i].0@ == k by {
            if k != s.last().0@ {
                assert(seq_map(t).contains_key(k));
                let i = choose|i: int| 0 <= i < t.len() && t[i].0@ == k;
                assert(s[i] == t[i]);
            } else {
                assert(s[s.len() - 1].0@ == k);
            }
        }
    }
}

/// Entry sequences that agree entry by entry denote the same map.
pub proof fn lemma_seq_map_pointwise<V: View, W: View<V = V::V>>(s: Seq<(String, V)>, t: Seq<(String, W)>)
    requires
        s.len() == t.len(),
        forall|i: int| 0 <= i < s.len() ==> #[trigger] s[i].0@ == t[i].0@ && s[i].1@ == t[i].1@,
    ensures
        seq_map(s) == seq_map(t),
    decreases s.len(),
{
    if s.len() > 0 {
        lemma_seq_map_pointwise(s.drop_last(), t.drop_last());
        assert(s.last().0@ == t.last().0@ && s.last().1@ == t.last().1@) by {
            assert(s[s.len() - 1].0@ == t[t.len() - 1].0@);
        }
    }
}

/// A map from string keys, sorted by key.
#[derive(Debug)]
pub struct StrMap<V> {
    entries: Vec<(String, V)>,
}

impl<V: View> View for StrMap<V> {
    type V = Map<Seq<char>, V::V>;

    closed spec fn view(&self) -> Map<Seq<char>, V::V> {
        seq_map(self.entries@)
    }
}

impl<V: View> StrMap<V> {
    /// The entries, in key order.
    pub closed spec fn entry_seq(&self) -> Seq<(String, V)> {
        self.entries@
    }

    /// The entries are sorted by key.
    pub closed spec fn wf(&self) -> bool {
        sorted_keys(self.entries@)
    }

    /// The map that the entries denote, and its facts.
    pub proof fn lemma_view(&self)
        requires
            self.wf(),
        ensures
            sorted_keys(self.entry_seq()),
            unique_keys(self.entry_seq()),
            self@ == seq_map(self.entry_seq()),
            self@.dom().finite(),
            self@.dom().len() == self.entry_seq().len(),
            forall|i: int|
                0 <= i < self.entry_seq().len() ==> #[trigger] self@.contains_key(
                    self.entry_seq()[i].0@,
                ) && self@[self.entry_seq()[i].0@] == self.entry_seq()[i].1@,
            forall|k: Seq<char>|
                #[trigger] self@.contains_key(k) ==> exists|i: int|
                    0 <= i < self.entry_seq().len() && self.entry_seq()[i].0@ == k,
    {
        lemma_sorted_unique(self.entries@);
        lemma_seq_map(self.entries@);
    }

    pub fn new() -> (r: StrMap<V>)
        ensures
            r.wf(),
            r@ == Map::<Seq<char>, V::V>::empty(),
            r.entry_seq().len() == 0,
    {
        StrMap { entries: Vec::new() }
    }

    pub fn len(&self) -> (r: usize)
        ensures
            r == self.entry_seq().len(),
    {
        self.entries.len()
    }

    /// The entries, in key order.
    pub fn as_slice(&self) -> (r: &[(String, V)])
        ensures
            r@ == self.entry_seq(),
    {
        self.entries.as_slice()
    }

    /// Where `k` is, or where it would go.
    fn find(&self, k: &str) -> (r: (bool, usize))
        requires
            self.wf(),
        ensures
            r.1 <= self.entries@.len(),
            r.0 ==> r.1 < self.entries@.len() && self.entries@[r.1 as int].0@ == k@,
            !r.0 ==> (forall|i: int| 0 <= i < r.1 ==> key_lt(#[trigger] self.entries@[i].0@, k@))
                && (forall|i: int|
                r.1 <= i < self.entries@.len() ==> key_lt(k@, #[trigger] self.entries@[i].0@)),
    {
        let mut i: usize = 0;
        while i < self.entries.len()
            invariant
                i <= self.entries@.len(),
                self.wf(),
                forall|j: int| 0 <= j < i ==> key_lt(#[trigger] self.entries@[j].0@, k@),
            decreases self.entries@.len() - i,
        {
            match compare_keys(self.entries[i].0.as_str(), k) {
                KeyOrder::Less => {},
                KeyOrder::Equal => {
                    return (true, i);
                },
                KeyOrder::Greater => {
                    assert forall|j: int| i <= j < self.entries@.len() implies key_lt(
                        k@,
                        #[trigger] self.entries@[j].0@,
                    ) by {
                        if j > i {
                            lemma_key_order(k@, self.entries@[i as int].0@, self.entries@[j].0@);
                        }
                    }
                    return (false, i);
                },
            }
            i = i + 1;
        }
        (false, i)
    }

    pub fn contains_key(&self, k: &str) -> (r: bool)
        requires
            self.wf(),
        ensures
            r == self@.contains_key(k@),
    {
        proof {
            self.lemma_view();
        }
        let (found, _) = self.find(k);
        if !found {
            assert(!self@.contains_key(k@)) by {
                if self@.contains_key(k@) {
                    let i = choose|i: int| 0 <= i < self.entries@.len() && self.entries@[i].0@ == k@;
                    lemma_key_order(k@, k@, k@);
                }
            }
        }
        found
    }

    pub fn get(&self, k: &str) -> (r: Option<&V>)
        requires
            self.wf(),
        ensures
            match r {
                Some(v) => self@.contains_key(k@) && v@ == self@[k@],
                None => !self@.contains_key(k@),
            },
    {
        proof {
            self.lemma_view();
        }
        let (found, p) = self.find(k);
        if found {
            Some(&self.entries[p].1)
        } else {
            assert(!self@.contains_key(k@)) by {
                if self@.contains_key(k@) {
                    let i = choose|i: int| 0 <= i < self.entries@.len() && self.entries@[i].0@ == k@;
                    lemma_key_order(k@, k@, k@);
                }
            }
            None
        }
    }

    /// Set `k` to `v`; the previous value of `k` comes back.
    pub fn insert(&mut self, k: String, v: V) -> (r: Option<V>)
        requires
            old(self).wf(),
        ensures
            final(self).wf(),
            final(self)@ == old(self)@.insert(k@, v@),
            match r {
                Some(o) => old(self)@.contains_key(k@) && o@ == old(self)@[k@],
                None => !old(self)@.contains_key(k@),
            },
    {
        proof {
            self.lemma_view();
        }
        let ghost s = self.entries@;
        let (found, p) = self.find(k.as_str());
        let ghost kv = k@;
        let ghost vv = v@;
        if found {
            let mut old_entry = (k, v);
            std::mem::swap(&mut self.entries[p], &mut old_entry);
            let ghost t = self.entries@;
            assert(t == s.update(p as int, t[p as int]));
            assert(sorted_keys(t)) by {
                assert forall|i: int, j: int| 0 <= i < j < t.len() implies key_lt(
                    #[trigger] t[i].0@,
                    #[trigger] t[j].0@,
                ) by {
                    assert(s[i].0@ == t[i].0@ || i == p);
                    assert(s[j].0@ == t[j].0@ || j == p);
                }
            }
            proof {
                lemma_sorted_unique(t);
                lemma_seq_map(t);
                assert(seq_map(t) =~= seq_map(s).insert(kv, vv)) by {
                    assert forall|x: Seq<char>| #[trigger] seq_map(t).contains_key(x)
                        <==> seq_map(s).insert(kv, vv).contains_key(x) by {
                        if seq_map(t).contains_key(x) {
                            let i = choose|i: int| 0 <= i < t.len() && t[i].0@ == x;
                            if i != p {
                                assert(s[i] == t[i]);
                            }
                        }
                        if seq_map(s).contains_key(x) {
                            let i = choose|i: int| 0 <= i < s.len() && s[i].0@ == x;
                            if i != p {
                                assert(s[i] == t[i]);
                                assert(seq_map(t).contains_key(t[i].0@));
                            } else {
                                assert(seq_map(t).contains_key(t[p as int].0@));
                            }
                        }
                        if x == kv {
                            assert(seq_map(t).contains_key(t[p as int].0@));
                        }
                    }
                    assert forall|x: Seq<char>| #[trigger] seq_map(t).contains_key(x) implies seq_map(
                        t,
                    )[x] == seq_map(s).insert(kv, vv)[x] by {
                        let i = choose|i: int| 0 <= i < t.len() && t[i].0@ == x;
                        if i != p {
                            assert(s[i] == t[i]);
                        }
                    }
                }
            }
            assert(old_entry == s[p as int]);
            assert(seq_map(s).contains_key(s[p as int].0@));
            Some(old_entry.1)
        } else {
            self.entries.insert(p, (k, v));
            let ghost t = self.entries@;
            assert(sorted_keys(t)) by {
                assert forall|i: int, j: int| 0 <= i < j < t.len() implies key_lt(
                    #[trigger] t[i].0@,
                    #[trigger] t[j].0@,
                ) by {
                    if i < p && j > p {
                        assert(t[i] == s[i]);
                        assert(t[j] == s[j - 1]);
                        lemma_key_order(t[i].0@, kv, t[j].0@);
                    } else if i < p && j == p {
                        assert(t[i] == s[i]);
                    } else if i == p {
                        assert(t[j] == s[j - 1]);
                    } else if j < p {
                        assert(t[i] == s[i] && t[j] == s[j]);
                    } else {
                        assert(t[i] == s[i - 1] && t[j] == s[j - 1]);
                    }
                }
            }
            proof {
                lemma_sorted_unique(t);
                lemma_seq_map(t);
                assert(!seq_map(s).contains_key(kv)) by {
                    if seq_map(s).contains_key(kv) {
                        let i = choose|i: int| 0 <= i < s.len() && s[i].0@ == kv;
                        lemma_key_order(kv, kv, kv);
                    }
                }
                assert(seq_map(t) =~= seq_map(s).insert(kv, vv)) by {
                    assert forall|x: Seq<char>| #[trigger] seq_map(t).contains_key(x)
                        <==> seq_map(s).insert(kv, vv).contains_key(x) by {
                        if seq_map(t).contains_key(x) {
                            let i = choose|i: int| 0 <= i < t.len() && t[i].0@ == x;
                            if i < p {
                                assert(s[i] == t[i]);
                            } else if i > p {
                                assert(s[i - 1] == t[i]);
                            }
                        }
                        if seq_map(s).contains_key(x) {
                            let i = choose|i: int| 0 <= i < s.len() && s[i].0@ == x;
                            if i < p {
                                assert(s[i] == t[i]);
                                assert(seq_map(t).contains_key(t[i].0@));
                            } else {
                                assert(s[i] == t[i + 1]);
                                assert(seq_map(t).contains_key(t[i + 1].0@));
                            }
                        }
                        if x == kv {
                            assert(seq_map(t).contains_key(t[p as int].0@));
                        }
                    }
                    assert forall|x: Seq<char>| #[trigger] seq_map(t).contains_key(x) implies seq_map(
                        t,
                    )[x] == seq_map(s).insert(kv, vv)[x] by {
                        let i = choose|i: int| 0 <= i < t.len() && t[i].0@ == x;
                        if i < p {
                            assert(s[i] == t[i]);
                        } else if i > p {
                            assert(s[i - 1] == t[i]);
                        }
                    }
                }
            }
            None
        }
    }

    /// Remove `k`; its value comes back.
    pub fn remove(&mut self, k: &str) -> (r: Option<V>)
        requires
            old(self).wf(),
        ensures
            final(self).wf(),
            final(self)@ == old(self)@.remove(k@),
            match r {
                Some(o) => old(self)@.contains_key(k@) && o@ == old(self)@[k@],
                None => !old(self)@.contains_key(k@),
            },
    {
        proof {
            self.lemma_view();
        }
        let ghost s = self.entries@;
        let (found, p) = self.find(k);
        if found {
            let e = self.entries.remove(p);
            let ghost t = self.entries@;
            assert(sorted_keys(t)) by {
                assert forall|i: int, j: int| 0 <= i < j < t.len() implies key_lt(
                    #[trigger] t[i].0@,
                    #[trigger] t[j].0@,
                ) by {
                    if i < p && j >= p {
                        assert(t[i] == s[i] && t[j] == s[j + 1]);
                    } else if j < p {
                        assert(t[i] == s[i] && t[j] == s[j]);
                    } else {
                        assert(t[i] == s[i + 1] && t[j] == s[j + 1]);
                    }
                }
            }
            proof {
                lemma_sorted_unique(t);
                lemma_seq_map(t);
                assert(seq_map(t) =~= seq_map(s).remove(k@)) by {
                    assert forall|x: Seq<char>| #[trigger] seq_map(t).contains_key(x)
                        <==> seq_map(s).remove(k@).contains_key(x) by {
                        if seq_map(t).contains_key(x) {
                            let i = choose|i: int| 0 <= i < t.len() && t[i].0@ == x;
                            if i < p {
                                assert(s[i] == t[i]);
                            } else {
                                assert(s[i + 1] == t[i]);
                            }
                        }
                        if seq_map(s).remove(k@).contains_key(x) {
                            let i = choose|i: int| 0 <= i < s.len() && s[i].0@ == x;
                            if i < p {
                                assert(s[i] == t[i]);
                                assert(seq_map(t).contains_key(t[i].0@));
                            } else if i > p {
                                assert(s[i] == t[i - 1]);
                                assert(seq_map(t).contains_key(t[i - 1].0@));
                            }
                        }
                    }
                    assert forall|x: Seq<char>| #[trigger] seq_map(t).contains_key(x) implies seq_map(
                        t,
                    )[x] == seq_map(s).remove(k@)[x] by {
                        let i = choose|i: int| 0 <= i < t.len() && t[i].0@ == x;
                        if i < p {
                            assert(s[i] == t[i]);
                        } else {
                            assert(s[i + 1] == t[i]);
                        }
                    }
                }
            }
            assert(e == s[p as int]);
            assert(seq_map(s).contains_key(s[p as int].0@));
            Some(e.1)
        } else {
            proof {
                assert(!seq_map(s).contains_key(k@)) by {
                    if seq_map(s).contains_key(k@) {
                        let i = choose|i: int| 0 <= i < s.len() && s[i].0@ == k@;
                        lemma_key_order(k@, k@, k@);
                    }
                }
                assert(seq_map(s).remove(k@) =~= seq_map(s));
            }
            None
        }
    }
}

impl StrMap<MapValue> {
    /// A copy with the same entries.
    pub fn clone_map(&self) -> (r: StrMap<MapValue>)
        requires
            self.wf(),
        ensures
            r.wf(),
            r@ == self@,
            r.entry_seq().len() == self.entry_seq().len(),
    {
        let mut out: Vec<(String, MapValue)> = Vec::new();
        let mut i: usize = 0;
        while i < self.entries.len()
            invariant
                i <= self.entries@.len(),
                out@.len() == i,
                forall|j: int| 0 <= j < i ==> #[trigger] out@[j].0@ == self.entries@[j].0@ && out@[j].1@ == self.entries@[j].1@,
            decreases self.entries@.len() - i,
        {
            out.push((self.entries[i].0.clone(), self.entries[i].1.clone_map_value()));
            i = i + 1;
        }
        proof {
            lemma_seq_map_pointwise(out@, self.entries@);
            assert(sorted_keys(out@)) by {
                assert forall|a: int, b: int| 0 <= a < b < out@.len() implies key_lt(#[trigger] out@[a].0@, #[trigger] out@[b].0@) by {
                    assert(key_lt(self.entries@[a].0@, self.entries@[b].0@));
                }
            }
        }
        StrMap { entries: out }
    }
}

impl StrMap<IdLp> {
    /// A copy with the same entries.
    pub fn clone_map(&self) -> (r: StrMap<IdLp>)
        requires
            self.wf(),
        ensures
            r.wf(),
            r@ == self@,
    {
        let mut out: Vec<(String, IdLp)> = Vec::new();
        let mut i: usize = 0;
        while i < self.entries.len()
            invariant
                i <= self.entries@.len(),
                out@.len() == i,
                forall|j: int| 0 <= j < i ==> #[trigger] out@[j].0@ == self.entries@[j].0@ && out@[j].1@ == self.entries@[j].1@,
            decreases self.entries@.len() - i,
        {
            out.push((self.entries[i].0.clone(), self.entries[i].1));
            i = i + 1;
        }
        proof {
            lemma_seq_map_pointwise(out@, self.entries@);
            assert(sorted_keys(out@)) by {
                assert forall|a: int, b: int| 0 <= a < b < out@.len() implies key_lt(#[trigger] out@[a].0@, #[trigger] out@[b].0@) by {
                    assert(key_lt(self.entries@[a].0@, self.entries@[b].0@));
                }
            }
        }
        StrMap { entries: out }
    }
}

} // verus!

use vstd::prelude::*;

verus! {

/// The in-memory index: a list of key and offset pairs with pairwise
/// distinct keys, read as a map from key to the offset of the key's most
/// recent `Put` line.
pub struct LogIndex {
    entries: Vec<(String, usize)>,
}

pub open spec fn distinct_keys(es: Seq<(String, usize)>) -> bool {
    forall|i: int, j: int| 0 <= i < j < es.len() ==> es[i].0@ != es[j].0@
}

pub open spec fn entries_map(es: Seq<(String, usize)>) -> Map<Seq<char>, nat>
    decreases es.len(),
{
    if es.len() == 0 {
        Map::empty()
    } else {
        entries_map(es.drop_last()).insert(es.last().0@, es.last().1 as nat)
    }
}

impl View for LogIndex {
    type V = Map<Seq<char>, nat>;

    closed spec fn view(&self) -> Map<Seq<char>, nat> {
        entries_map(self.entries@)
    }
}

/// Every entry of a duplicate-free list is in its map, at its own offset,
/// and the map holds nothing else.
proof fn lemma_entries_map_props(es: Seq<(String, usize)>)
    requires
        distinct_keys(es),
    ensures
        forall|i: int|
            0 <= i < es.len() ==> entries_map(es).contains_key(#[trigger] es[i].0@)
                && entries_map(es)[es[i].0@] == es[i].1 as nat,
        forall|k: Seq<char>| #[trigger] entries_map(es).contains_key(k) ==> exists|i: int|
            0 <= i < es.len() && es[i].0@ == k,
    decreases es.len(),
{
    if es.len() == 0 {
    } else {
        let prev = es.drop_last();
        lemma_entries_map_props(prev);
        assert forall|i: int|
            0 <= i < es.len() implies entries_map(es).contains_key(#[trigger] es[i].0@)
            && entries_map(es)[es[i].0@] == es[i].1 as nat by {
            if i < es.len() - 1 {
                assert(prev[i] == es[i]);
                assert(es[i].0@ != es.last().0@);
            }
        }
        assert forall|k: Seq<char>| #[trigger] entries_map(es).contains_key(k) implies exists|i: int|
            0 <= i < es.len() && es[i].0@ == k by {
            if k != es.last().0@ {
                assert(entries_map(prev).contains_key(k));
                let i0 = choose|i: int| 0 <= i < prev.len() && prev[i].0@ == k;
                assert(prev[i0] == es[i0]);
                assert(es[i0].0@ == k);
            } else {
                assert(es[es.len() - 1].0@ == k);
            }
        }
    }
}

/// Removing the entry of a key removes exactly that key from the map.
proof fn lemma_entries_map_remove(es: Seq<(String, usize)>, i: int)
    requires
        distinct_keys(es),
        0 <= i < es.len(),
    ensures
        entries_map(es.remove(i)) == entries_map(es).remove(es[i].0@),
    decreases es.len(),
{
    lemma_entries_map_props(es);
    let k = es[i].0@;
    if i == es.len() - 1 {
        assert(es.remove(i) =~= es.drop_last());
        let prev = es.drop_last();
        assert(distinct_keys(prev)) by {
            assert(forall|a: int, b: int|
                0 <= a < b < prev.len() ==> prev[a] == es[a] && prev[b] == es[b]);
        }
        lemma_entries_map_props(prev);
        if entries_map(prev).contains_key(k) {
            let i0 = choose|t: int| 0 <= t < prev.len() && prev[t].0@ == k;
            assert(prev[i0] == es[i0]);
            assert(es[i0].0@ == k);
            assert(false);
        }
        assert(entries_map(es.remove(i)) =~= entries_map(es).remove(k));
    } else {
        let prev = es.drop_last();
        assert(distinct_keys(prev)) by {
            assert(forall|a: int, b: int|
                0 <= a < b < prev.len() ==> prev[a] == es[a] && prev[b] == es[b]);
        }
        lemma_entries_map_remove(prev, i);
        assert(es.remove(i).drop_last() =~= prev.remove(i));
        assert(es.remove(i).last() == es.last());
        assert(prev[i] == es[i]);
        assert(k != es.last().0@);
        assert(entries_map(es.remove(i)) == entries_map(prev.remove(i)).insert(
            es.last().0@,
            es.last().1 as nat,
        ));
        assert(entries_map(prev).remove(k).insert(es.last().0@, es.last().1 as nat)
            =~= entries_map(es).remove(k));
    }
}

impl LogIndex {
    pub closed spec fn wf(&self) -> bool {
        distinct_keys(self.entries@)
    }

    /// The keys, in the order the index walks them.
    pub closed spec fn keys(&self) -> Seq<Seq<char>> {
        Seq::new(self.entries@.len(), |i: int| self.entries@[i].0@)
    }

    /// What a caller may rely on about the walk order: the keys are exactly
    /// the map's domain, without repetition, each at its mapped offset.
    pub proof fn lemma_index_props(&self)
        requires
            self.wf(),
        ensures
            forall|i: int, j: int| 0 <= i < j < self.keys().len() ==> self.keys()[i]
                != self.keys()[j],
            forall|i: int| 0 <= i < self.keys().len() ==> self@.contains_key(
                #[trigger] self.keys()[i],
            ),
            forall|k: Seq<char>| #[trigger] self@.contains_key(k) ==> exists|i: int|
                0 <= i < self.keys().len() && self.keys()[i] == k,
    {
        lemma_entries_map_props(self.entries@);
        assert forall|k: Seq<char>| #[trigger] self@.contains_key(k) implies exists|i: int|
            0 <= i < self.keys().len() && self.keys()[i] == k by {
            let i0 = choose|i: int| 0 <= i < self.entries@.len() && self.entries@[i].0@ == k;
            assert(self.keys()[i0] == k);
        }
    }

    pub fn new() -> (r: LogIndex)
        ensures
            r.wf(),
            r@ == Map::<Seq<char>, nat>::empty(),
            r.keys().len() == 0,
    {
        let r = LogIndex { entries: Vec::new() };
        proof {
            assert(r.entries@.len() == 0);
        }
        r
    }

    pub fn len(&self) -> (n: usize)
        ensures
            n == self.keys().len(),
    {
        self.entries.len()
    }

    pub fn key_at(&self, i: usize) -> (r: &String)
        requires
            i < self.keys().len(),
        ensures
            r@ == self.keys()[i as int],
    {
        &self.entries[i].0
    }

    pub fn off_at(&self, i: usize) -> (r: usize)
        requires
            self.wf(),
            i < self.keys().len(),
        ensures
            self@.contains_key(self.keys()[i as int]),
            self@[self.keys()[i as int]] == r as nat,
    {
        proof {
            lemma_entries_map_props(self.entries@);
        }
        self.entries[i].1
    }

    fn position(&self, key: &String) -> (r: Option<usize>)
        ensures
            match r {
                Some(i) => i < self.entries@.len() && self.entries@[i as int].0@ == key@,
                None => forall|t: int| 0 <= t < self.entries@.len() ==> self.entries@[t].0@
                    != key@,
            },
    {
        let n = self.entries.len();
        let mut i: usize = 0;
        while i < n
            invariant
                i <= n,
                n == self.entries@.len(),
                forall|t: int| 0 <= t < i ==> self.entries@[t].0@ != key@,
            decreases n - i,
        {
            if self.entries[i].0 == *key {
                return Some(i);
            }
            i = i + 1;
        }
        None
    }

    pub fn lookup(&self, key: &String) -> (r: Option<usize>)
        requires
            self.wf(),
        ensures
            match r {
                Some(off) => self@.contains_key(key@) && self@[key@] == off as nat,
                None => !self@.contains_key(key@),
            },
    {
        proof {
            lemma_entries_map_props(self.entries@);
        }
        match self.position(key) {
            Some(i) => Some(self.entries[i].1),
            None => {
                proof {
                    if self@.contains_key(key@) {
                        let i0 = choose|i: int|
                            0 <= i < self.entries@.len() && self.entries@[i].0@ == key@;
                        assert(self.entries@[i0].0@ == key@);
                    }
                }
                None
            },
        }
    }

    /// Insert or overwrite: the entry for the key, if any, is withdrawn,
    /// and the key is bound to the new offset.
    pub fn insert(&mut self, key: String, off: usize)
        requires
            old(self).wf(),
        ensures
            final(self).wf(),
            final(self)@ == old(self)@.insert(key@, off as nat),
    {
        match self.position(&key) {
            Some(i) => {
                proof {
                    lemma_entries_map_remove(self.entries@, i as int);
                }
                self.entries.remove(i);
                proof {
                    assert(distinct_keys(self.entries@)) by {
                        assert(forall|a: int, b: int|
                            0 <= a < b < self.entries@.len() ==> old(
                                self,
                            ).entries@.remove(i as int)[a] == self.entries@[a] && old(
                                self,
                            ).entries@.remove(i as int)[b] == self.entries@[b]);
                    }
                }
            },
            None => {},
        }
        let ghost mid = self.entries@;
        self.entries.push((key, off));
        proof {
            assert(self.entries@.drop_last() =~= mid);
            assert(forall|t: int| 0 <= t < mid.len() ==> mid[t].0@ != key@);
            assert(distinct_keys(self.entries@)) by {
                assert(forall|t: int| 0 <= t < mid.len() ==> self.entries@[t] == mid[t]);
            }
            assert(entries_map(self.entries@) =~= old(self)@.insert(key@, off as nat));
        }
    }

    /// Withdraw a key; nothing changes if it is absent.
    pub fn remove(&mut self, key: &String)
        requires
            old(self).wf(),
        ensures
            final(self).wf(),
            final(self)@ == old(self)@.remove(key@),
    {
        proof {
            lemma_entries_map_props(self.entries@);
        }
        match self.position(key) {
            Some(i) => {
                proof {
                    lemma_entries_map_remove(self.entries@, i as int);
                }
                self.entries.remove(i);
                proof {
                    assert(distinct_keys(self.entries@)) by {
                        assert(forall|a: int, b: int|
                            0 <= a < b < self.entries@.len() ==> old(
                                self,
                            ).entries@.remove(i as int)[a] == self.entries@[a] && old(
                                self,
                            ).entries@.remove(i as int)[b] == self.entries@[b]);
                    }
                }
            },
            None => {
                proof {
                    if self@.contains_key(key@) {
                        let i0 = choose|t: int|
                            0 <= t < self.entries@.len() && self.entries@[t].0@ == key@;
                        assert(self.entries@[i0].0@ == key@);
                    }
                    assert(self@ =~= old(self)@.remove(key@));
                }
            },
        }
    }
}

} // verus!

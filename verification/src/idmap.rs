//! A map keyed by Workshop IDs and other short strings, each key held once.

use crate::text::str_eq;
use vstd::prelude::*;

verus! {

/// Key-value pairs with distinct keys, in insertion order.
#[derive(Clone, Debug)]
pub struct IdMap<V> {
    pairs: Vec<(String, V)>,
}

pub open spec fn keys_distinct<V>(p: Seq<(String, V)>) -> bool {
    forall|i: int, j: int| 0 <= i < j < p.len() ==> p[i].0@ != p[j].0@
}

pub open spec fn pairs_map<V>(p: Seq<(String, V)>) -> Map<Seq<char>, V>
    decreases p.len(),
{
    if p.len() == 0 {
        Map::empty()
    } else {
        pairs_map(p.drop_last()).insert(p.last().0@, p.last().1)
    }
}

impl<V> IdMap<V> {
    /// The map: each key to its value.
    pub closed spec fn view(&self) -> Map<Seq<char>, V> {
        pairs_map(self.pairs@)
    }

    /// The keys, in insertion order.
    pub closed spec fn key_seq(&self) -> Seq<Seq<char>> {
        self.pairs@.map_values(|p: (String, V)| p.0@)
    }

    pub closed spec fn wf(&self) -> bool {
        keys_distinct(self.pairs@)
    }

    pub proof fn lemma_wf(&self)
        requires
            self.wf(),
        ensures
            self.view().dom().finite(),
            self.view().dom() == self.key_seq().to_set(),
            self.key_seq().no_duplicates(),
            self.view().len() == self.key_seq().len(),
    {
        lemma_pairs(self.pairs@);
    }

    pub fn new() -> (m: Self)
        ensures
            m.wf(),
            m.view() == Map::<Seq<char>, V>::empty(),
            m.key_seq() == Seq::<Seq<char>>::empty(),
    {
        let m = IdMap { pairs: Vec::new() };
        assert(m.key_seq() =~= Seq::<Seq<char>>::empty());
        m
    }

    fn index_of(&self, key: &str) -> (r: Option<usize>)
        requires
            self.wf(),
        ensures
            match r {
                Some(i) => i < self.pairs@.len() && self.pairs@[i as int].0@ == key@,
                None => forall|i: int| 0 <= i < self.pairs@.len() ==> self.pairs@[i].0@ != key@,
            },
    {
        let mut i: usize = 0;
        while i < self.pairs.len()
            invariant
                i <= self.pairs@.len(),
                forall|k: int| 0 <= k < i ==> self.pairs@[k].0@ != key@,
            decreases self.pairs.len() - i,
        {
            if str_eq(self.pairs[i].0.as_str(), key) {
                return Some(i);
            }
            i = i + 1;
        }
        None
    }

    pub fn get(&self, key: &str) -> (r: Option<&V>)
        requires
            self.wf(),
        ensures
            match r {
                Some(v) => self.view().contains_key(key@) && *v == self.view()[key@],
                None => !self.view().contains_key(key@),
            },
    {
        proof {
            lemma_pairs(self.pairs@);
        }
        match self.index_of(key) {
            Some(i) => {
                proof {
                    lemma_pairs_at(self.pairs@, i as int);
                }
                Some(&self.pairs[i].1)
            },
            None => {
                proof {
                    if self.view().contains_key(key@) {
                        assert(self.key_seq().to_set().contains(key@));
                        let k = choose|k: int|
                            0 <= k < self.key_seq().len() && self.key_seq()[k] == key@;
                        assert(self.pairs@[k].0@ == key@);
                    }
                }
                None
            },
        }
    }

    pub fn contains_key(&self, key: &str) -> (r: bool)
        requires
            self.wf(),
        ensures
            r == self.view().contains_key(key@),
    {
        self.get(key).is_some()
    }

    /// Sets `key` to `value`, keeping the key's place when it was already present.
    pub fn insert(&mut self, key: String, value: V)
        requires
            old(self).wf(),
        ensures
            final(self).wf(),
            final(self).view() == old(self).view().insert(key@, value),
            old(self).view().contains_key(key@) ==> final(self).key_seq() == old(self).key_seq(),
            !old(self).view().contains_key(key@) ==> final(self).key_seq() == old(self).key_seq().push(
                key@,
            ),
    {
        proof {
            lemma_pairs(self.pairs@);
        }
        match self.index_of(key.as_str()) {
            Some(i) => {
                let ghost before = self.pairs@;
                let ghost before_keys = self.key_seq();
                self.pairs.set(i, (key, value));
                proof {
                    lemma_pairs_at(before, i as int);
                    lemma_pairs_set(before, i as int, (self.pairs@[i as int].0, value));
                    assert(self.key_seq() =~= before_keys);
                }
            },
            None => {
                let ghost before = self.pairs@;
                let ghost before_keys = self.key_seq();
                self.pairs.push((key, value));
                proof {
                    assert(self.pairs@.drop_last() =~= before);
                    assert(self.key_seq() =~= before_keys.push(self.pairs@.last().0@));
                    let kb = before.map_values(|p: (String, V)| p.0@);
                    if kb.to_set().contains(self.pairs@.last().0@) {
                        let k = choose|k: int| 0 <= k < kb.len() && #[trigger] kb[k] == self.pairs@.last().0@;
                        assert(before[k].0@ == self.pairs@.last().0@);
                    }
                }
            },
        }
    }

    pub fn len(&self) -> (n: usize)
        requires
            self.wf(),
        ensures
            n == self.view().len(),
            n == self.key_seq().len(),
    {
        proof {
            lemma_pairs(self.pairs@);
        }
        self.pairs.len()
    }

    /// The `i`-th key and value, in insertion order.
    pub fn entry(&self, i: usize) -> (r: (&String, &V))
        requires
            self.wf(),
            i < self.key_seq().len(),
        ensures
            r.0@ == self.key_seq()[i as int],
            self.view().contains_key(r.0@),
            *r.1 == self.view()[r.0@],
    {
        proof {
            lemma_pairs(self.pairs@);
            lemma_pairs_at(self.pairs@, i as int);
        }
        (&self.pairs[i].0, &self.pairs[i].1)
    }
}

proof fn lemma_pairs<V>(p: Seq<(String, V)>)
    requires
        keys_distinct(p),
    ensures
        pairs_map(p).dom().finite(),
        pairs_map(p).dom() == p.map_values(|q: (String, V)| q.0@).to_set(),
        p.map_values(|q: (String, V)| q.0@).no_duplicates(),
        pairs_map(p).len() == p.len(),
    decreases p.len(),
{
    let ks = p.map_values(|q: (String, V)| q.0@);
    if p.len() > 0 {
        lemma_pairs(p.drop_last());
        let kd = p.drop_last().map_values(|q: (String, V)| q.0@);
        assert(ks =~= kd.push(p.last().0@));
        assert(!kd.contains(p.last().0@)) by {
            if kd.contains(p.last().0@) {
                let k = choose|k: int| 0 <= k < kd.len() && kd[k] == p.last().0@;
                assert(p[k].0@ == p[p.len() - 1].0@);
            }
        }
        kd.lemma_push_to_set_commute(p.last().0@);
        assert(!pairs_map(p.drop_last()).dom().contains(p.last().0@));
    } else {
        assert(ks.to_set() =~= Set::empty());
    }
}

proof fn lemma_pairs_at<V>(p: Seq<(String, V)>, i: int)
    requires
        keys_distinct(p),
        0 <= i < p.len(),
    ensures
        pairs_map(p).contains_key(p[i].0@),
        pairs_map(p)[p[i].0@] == p[i].1,
    decreases p.len(),
{
    if i < p.len() - 1 {
        lemma_pairs_at(p.drop_last(), i);
    }
}

proof fn lemma_pairs_set<V>(p: Seq<(String, V)>, i: int, q: (String, V))
    requires
        keys_distinct(p),
        0 <= i < p.len(),
        q.0@ == p[i].0@,
    ensures
        keys_distinct(p.update(i, q)),
        pairs_map(p.update(i, q)) == pairs_map(p).insert(q.0@, q.1),
    decreases p.len(),
{
    let u = p.update(i, q);
    if i == p.len() - 1 {
        assert(u.drop_last() =~= p.drop_last());
        lemma_pairs(p.drop_last());
        assert(pairs_map(u) =~= pairs_map(p).insert(q.0@, q.1));
    } else {
        lemma_pairs_set(p.drop_last(), i, q);
        assert(u.drop_last() =~= p.drop_last().update(i, q));
        assert(pairs_map(u) =~= pairs_map(p).insert(q.0@, q.1));
    }
}

} // verus!

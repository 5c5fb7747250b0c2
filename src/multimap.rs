//! A map from string keys to ordered sequences of strings, with buckets kept
//! in the order in which their keys were first seen.

use vstd::prelude::*;

verus! {

/// A bucket as it is stored and persisted: its key and its values, oldest first.
pub type Record = (String, Vec<String>);

pub open spec fn strings_view(v: Seq<String>) -> Seq<Seq<char>> {
    v.map_values(|s: String| s@)
}

pub open spec fn record_view(r: Record) -> (Seq<char>, Seq<Seq<char>>) {
    (r.0@, strings_view(r.1@))
}

pub open spec fn records_view(v: Seq<Record>) -> Seq<(Seq<char>, Seq<Seq<char>>)> {
    v.map_values(|r: Record| record_view(r))
}

/// No key occurs in two buckets.
pub open spec fn keys_distinct(es: Seq<(Seq<char>, Seq<Seq<char>>)>) -> bool {
    forall|i: int, j: int| 0 <= i < j < es.len() ==> es[i].0 != es[j].0
}

/// No bucket is empty.
pub open spec fn buckets_filled(es: Seq<(Seq<char>, Seq<Seq<char>>)>) -> bool {
    forall|i: int| 0 <= i < es.len() ==> es[i].1.len() > 0
}

pub open spec fn has_key(es: Seq<(Seq<char>, Seq<Seq<char>>)>, k: Seq<char>) -> bool {
    exists|i: int| 0 <= i < es.len() && es[i].0 == k
}

/// The map that a sequence of buckets stands for.
pub open spec fn map_of(es: Seq<(Seq<char>, Seq<Seq<char>>)>) -> Map<Seq<char>, Seq<Seq<char>>> {
    Map::new(
        |k: Seq<char>| has_key(es, k),
        |k: Seq<char>| es[choose|i: int| 0 <= i < es.len() && es[i].0 == k].1,
    )
}

/// With distinct keys, the bucket at position `i` is what the map holds under its key.
pub proof fn lemma_map_of_at(es: Seq<(Seq<char>, Seq<Seq<char>>)>, i: int)
    requires
        keys_distinct(es),
        0 <= i < es.len(),
    ensures
        map_of(es).contains_key(es[i].0),
        map_of(es)[es[i].0] == es[i].1,
{
    let k = es[i].0;
    assert(has_key(es, k));
    let j = choose|j: int| 0 <= j < es.len() && es[j].0 == k;
    if j < i {
        assert(es[j].0 != es[i].0);
    } else if i < j {
        assert(es[i].0 != es[j].0);
    }
}

/// Buckets with pairwise distinct keys, in order of first insertion of their keys.
///
/// Keys are found by a scan of the buckets, so a lookup or an insertion takes
/// time linear in the number of keys, and filing `n` values takes up to
/// quadratic time; a hashed key index would be faster but could not be reasoned
/// about here for `String` keys.
pub struct MultiMap {
    buckets: Vec<Record>,
}

impl View for MultiMap {
    type V = Map<Seq<char>, Seq<Seq<char>>>;

    closed spec fn view(&self) -> Map<Seq<char>, Seq<Seq<char>>> {
        map_of(self.entries())
    }
}

impl MultiMap {
    /// The buckets in order of first insertion of their keys.
    pub closed spec fn entries(&self) -> Seq<(Seq<char>, Seq<Seq<char>>)> {
        records_view(self.buckets@)
    }

    pub open spec fn wf(&self) -> bool {
        keys_distinct(self.entries()) && buckets_filled(self.entries())
    }

    pub proof fn lemma_view(&self)
        ensures
            self@ == map_of(self.entries()),
    {
    }

    pub fn new() -> (r: MultiMap)
        ensures
            r.wf(),
            r.entries() == Seq::<(Seq<char>, Seq<Seq<char>>)>::empty(),
            r@ == Map::<Seq<char>, Seq<Seq<char>>>::empty(),
    {
        let r = MultiMap { buckets: Vec::new() };
        assert(r.entries() =~= Seq::<(Seq<char>, Seq<Seq<char>>)>::empty());
        assert(r@ =~= Map::<Seq<char>, Seq<Seq<char>>>::empty());
        r
    }

    pub fn is_empty(&self) -> (r: bool)
        requires
            self.wf(),
        ensures
            r == (self@.dom() == Set::<Seq<char>>::empty()),
    {
        if self.buckets.len() == 0 {
            assert(self@.dom() =~= Set::<Seq<char>>::empty());
            true
        } else {
            proof {
                lemma_map_of_at(self.entries(), 0);
            }
            assert(self@.dom().contains(self.entries()[0].0));
            false
        }
    }

    /// The position of the bucket of `key`, if there is one. A linear scan.
    pub fn position(&self, key: &String) -> (r: Option<usize>)
        ensures
            match r {
                Some(i) => i < self.entries().len() && self.entries()[i as int].0 == key@,
                None => !has_key(self.entries(), key@),
            },
    {
        let mut i: usize = 0;
        while i < self.buckets.len()
            invariant
                i <= self.buckets@.len(),
                forall|j: int| 0 <= j < i ==> self.entries()[j].0 != key@,
            decreases self.buckets@.len() - i,
        {
            if self.buckets[i].0 == *key {
                return Some(i);
            }
            i = i + 1;
        }
        None
    }

    /// The values filed under `key`, oldest first, or `None` where the key is absent.
    pub fn get(&self, key: &String) -> (r: Option<&Vec<String>>)
        requires
            self.wf(),
        ensures
            match r {
                Some(v) => self@.contains_key(key@) && strings_view(v@) == self@[key@],
                None => !self@.contains_key(key@),
            },
    {
        match self.position(key) {
            Some(i) => {
                proof {
                    lemma_map_of_at(self.entries(), i as int);
                }
                Some(&self.buckets[i].1)
            },
            None => None,
        }
    }

    /// Files `value` last under `key`, creating the bucket where the key is new.
    pub fn append(&mut self, key: String, value: String)
        requires
            old(self).wf(),
        ensures
            final(self).wf(),
            final(self)@ == old(self)@.insert(
                key@,
                if old(self)@.contains_key(key@) {
                    old(self)@[key@].push(value@)
                } else {
                    seq![value@]
                },
            ),
    {
        match self.position(&key) {
            Some(i) => {
                let ghost es0 = self.entries();
                proof {
                    lemma_map_of_at(es0, i as int);
                }
                let mut b = self.buckets.remove(i);
                b.1.push(value);
                self.buckets.insert(i, b);
                assert(strings_view(b.1@) =~= es0[i as int].1.push(value@));
                assert(self.entries() =~= es0.update(i as int, (key@, es0[i as int].1.push(value@))));
                let ghost es1 = self.entries();
                assert(self@ =~= old(self)@.insert(key@, es0[i as int].1.push(value@))) by {
                    assert forall|k: Seq<char>| has_key(es1, k) == (has_key(es0, k) || k == key@) by {
                        if has_key(es0, k) {
                            let j = choose|j: int| 0 <= j < es0.len() && es0[j].0 == k;
                            assert(es1[j].0 == k);
                        }
                        if has_key(es1, k) {
                            let j = choose|j: int| 0 <= j < es1.len() && es1[j].0 == k;
                            assert(es0[j].0 == k);
                        }
                        if k == key@ {
                            assert(es1[i as int].0 == k);
                        }
                    }
                    assert forall|k: Seq<char>| #[trigger] has_key(es1, k) implies
                        map_of(es1)[k] == old(self)@.insert(key@, es0[i as int].1.push(value@))[k] by {
                        let j = choose|j: int| 0 <= j < es1.len() && es1[j].0 == k;
                        lemma_map_of_at(es1, j);
                        lemma_map_of_at(es0, j);
                    }
                }
            },
            None => {
                let ghost es0 = self.entries();
                let mut v: Vec<String> = Vec::new();
                v.push(value);
                self.buckets.push((key, v));
                assert(strings_view(v@) =~= seq![value@]);
                assert(self.entries() =~= es0.push((key@, seq![value@])));
                let ghost es1 = self.entries();
                assert(self@ =~= old(self)@.insert(key@, seq![value@])) by {
                    assert forall|k: Seq<char>| has_key(es1, k) == (has_key(es0, k) || k == key@) by {
                        if has_key(es0, k) {
                            let j = choose|j: int| 0 <= j < es0.len() && es0[j].0 == k;
                            assert(es1[j].0 == k);
                        }
                        if k == key@ {
                            assert(es1[es0.len() as int].0 == k);
                        }
                    }
                    assert forall|k: Seq<char>| #[trigger] has_key(es1, k) implies
                        map_of(es1)[k] == old(self)@.insert(key@, seq![value@])[k] by {
                        let j = choose|j: int| 0 <= j < es1.len() && es1[j].0 == k;
                        lemma_map_of_at(es1, j);
                        if j < es0.len() {
                            lemma_map_of_at(es0, j);
                        }
                    }
                }
            },
        }
    }

    /// The buckets, in order of first insertion of their keys.
    pub fn records(&self) -> (r: &Vec<Record>)
        ensures
            records_view(r@) == self.entries(),
    {
        &self.buckets
    }

    /// The multimap of `records`, or `None` where two records share a key or a
    /// record has no values.
    pub fn from_records(records: Vec<Record>) -> (r: Option<MultiMap>)
        ensures
            r is Some <==> (keys_distinct(records_view(records@)) && buckets_filled(
                records_view(records@),
            )),
            r matches Some(m) ==> m.wf() && m.entries() == records_view(records@),
    {
        let ghost es = records_view(records@);
        let mut i: usize = 0;
        while i < records.len()
            invariant
                es == records_view(records@),
                i <= records@.len(),
                forall|a: int, b: int| 0 <= a < b < i ==> es[a].0 != es[b].0,
                forall|a: int| 0 <= a < i ==> es[a].1.len() > 0,
            decreases records@.len() - i,
        {
            if records[i].1.len() == 0 {
                assert(es[i as int] == record_view(records@[i as int]));
                assert(es[i as int].1.len() == 0);
                assert(!buckets_filled(es));
                return None;
            }
            let mut j: usize = 0;
            while j < i
                invariant
                    es == records_view(records@),
                    j <= i < records@.len(),
                    forall|a: int| 0 <= a < j ==> es[a].0 != es[i as int].0,
                decreases i - j,
            {
                if records[j].0 == records[i].0 {
                    assert(es[i as int] == record_view(records@[i as int]));
                    assert(es[j as int] == record_view(records@[j as int]));
                    assert(!keys_distinct(es));
                    return None;
                }
                j = j + 1;
            }
            i = i + 1;
        }
        Some(MultiMap { buckets: records })
    }
}

} // verus!

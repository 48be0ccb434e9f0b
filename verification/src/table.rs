//! The in-memory model of one storage-engine table.
//!
//! A table is a flat keyspace of byte keys to byte values.  It is held as an
//! association list kept strictly ascending by key, which makes the entry
//! count trivial, lets full scans run in key order, and gives every table
//! state one canonical in-memory form.  Its mathematical model is the map
//! from key to value.

use vstd::prelude::*;
use crate::order::{
    clone_bytes, cmp_bytes, lemma_lex_transitive, lemma_sorted_distinct, lex_lt, sorted_strict,
    Ordering3,
};
use vstd::pervasive::VecAdditionalExecFns;

verus! {

broadcast use vstd::set::group_set_axioms;

/// The map described by a sequence of key/value pairs, later pairs winning.
pub open spec fn map_of<V>(entries: Seq<(Seq<u8>, V)>) -> Map<Seq<u8>, V>
    decreases entries.len(),
{
    if entries.len() == 0 {
        Map::empty()
    } else {
        map_of(entries.drop_last()).insert(entries.last().0, entries.last().1)
    }
}

/// No key occurs twice.
pub open spec fn distinct_keys<V>(entries: Seq<(Seq<u8>, V)>) -> bool {
    forall|p: int, q: int| 0 <= p < q < entries.len() ==> (#[trigger] entries[p].0)
        != (#[trigger] entries[q].0)
}

/// What [`map_of`] holds: the keys are the domain, each key maps to its
/// paired value, and the entry count is the domain size.
pub proof fn lemma_map_of_char<V>(entries: Seq<(Seq<u8>, V)>)
    requires
        distinct_keys(entries),
    ensures
        forall|k: Seq<u8>| #[trigger] map_of(entries).contains_key(k)
            <==> exists|i: int| 0 <= i < entries.len() && (#[trigger] entries[i]).0 == k,
        forall|i: int| 0 <= i < entries.len()
            ==> map_of(entries).contains_key((#[trigger] entries[i]).0)
                && map_of(entries)[entries[i].0] == entries[i].1,
        map_of(entries).dom().finite(),
        map_of(entries).dom().len() == entries.len(),
    decreases entries.len(),
{
    if entries.len() > 0 {
        let prefix = entries.drop_last();
        let last = entries.last();
        assert(distinct_keys(prefix)) by {
            assert(forall|i: int| 0 <= i < prefix.len()
                ==> (#[trigger] prefix[i]) == entries[i]);
        }
        lemma_map_of_char(prefix);
        assert(forall|i: int| 0 <= i < prefix.len()
            ==> (#[trigger] prefix[i]) == entries[i]);
        assert forall|i: int| 0 <= i < entries.len()
            implies map_of(entries).contains_key((#[trigger] entries[i]).0)
                && map_of(entries)[entries[i].0] == entries[i].1 by {
            if i < entries.len() - 1 {
                assert(entries[i].0 != last.0);
                assert(map_of(prefix)[prefix[i].0] == prefix[i].1);
            }
        }
        assert forall|k: Seq<u8>| #[trigger] map_of(entries).contains_key(k)
            implies exists|i: int|
                0 <= i < entries.len() && (#[trigger] entries[i]).0 == k by {
            if k != last.0 {
                let i = choose|i: int| 0 <= i < prefix.len() && (#[trigger] prefix[i]).0 == k;
                assert(entries[i].0 == k);
            } else {
                assert(entries[entries.len() - 1].0 == k);
            }
        }
        assert(!map_of(prefix).contains_key(last.0)) by {
            if map_of(prefix).contains_key(last.0) {
                let i = choose|i: int|
                    0 <= i < prefix.len() && (#[trigger] prefix[i]).0 == last.0;
                assert(entries[i].0 == entries[entries.len() - 1].0);
            }
        }
        assert(map_of(entries).dom() =~= map_of(prefix).dom().insert(last.0));
    } else {
        assert(map_of(entries).dom() =~= Set::<Seq<u8>>::empty());
    }
}

/// Replacing the value under one key updates the map at that key alone.
pub proof fn lemma_map_of_update<V>(entries: Seq<(Seq<u8>, V)>, i: int, v: V)
    requires
        distinct_keys(entries),
        0 <= i < entries.len(),
    ensures
        map_of(entries.update(i, (entries[i].0, v)))
            == map_of(entries).insert(entries[i].0, v),
{
    let upd = entries.update(i, (entries[i].0, v));
    assert(distinct_keys(upd)) by {
        assert(forall|p: int| 0 <= p < upd.len()
            ==> (#[trigger] upd[p]).0 == entries[p].0);
    }
    lemma_map_of_char(entries);
    lemma_map_of_char(upd);
    assert(map_of(upd) =~= map_of(entries).insert(entries[i].0, v)) by {
        assert forall|k: Seq<u8>| #[trigger] map_of(upd).contains_key(k)
            implies map_of(entries).insert(entries[i].0, v).contains_key(k)
                && map_of(upd)[k] == map_of(entries).insert(entries[i].0, v)[k] by {
            let p = choose|p: int| 0 <= p < upd.len() && (#[trigger] upd[p]).0 == k;
            assert(map_of(upd)[k] == upd[p].1);
            assert(entries[p].0 == k);
            if k == entries[i].0 {
                assert(p == i);
            } else {
                assert(map_of(entries)[k] == entries[p].1);
                assert(upd[p].1 == entries[p].1);
            }
        }
        assert forall|k: Seq<u8>| map_of(entries).insert(entries[i].0, v).contains_key(k)
            implies map_of(upd).contains_key(k) by {
            if k == entries[i].0 {
                assert(upd[i].0 == k);
            } else {
                let p = choose|p: int|
                    0 <= p < entries.len() && (#[trigger] entries[p]).0 == k;
                assert(upd[p].0 == k);
            }
        }
    }
}

/// Inserting a pair under a fresh key anywhere in the sequence inserts it
/// into the map.
pub proof fn lemma_map_of_insert_fresh<V>(entries: Seq<(Seq<u8>, V)>, i: int, k: Seq<u8>, v: V)
    requires
        distinct_keys(entries),
        0 <= i <= entries.len(),
        forall|p: int| 0 <= p < entries.len() ==> (#[trigger] entries[p]).0 != k,
    ensures
        map_of(entries.insert(i, (k, v))) == map_of(entries).insert(k, v),
{
    let upd = entries.insert(i, (k, v));
    assert forall|p: int| 0 <= p < upd.len()
        implies (#[trigger] upd[p])
            == (if p < i { entries[p] } else if p == i { (k, v) }
                else { entries[p - 1] }) by {
    }
    assert(distinct_keys(upd)) by {
        assert forall|p: int, q: int| 0 <= p < q < upd.len()
            implies (#[trigger] upd[p]).0 != (#[trigger] upd[q]).0 by {
            if p != i && q != i {
                let po: int = if p < i { p } else { p - 1 };
                let qo: int = if q < i { q } else { q - 1 };
                assert(entries[po].0 != entries[qo].0);
            }
        }
    }
    lemma_map_of_char(entries);
    lemma_map_of_char(upd);
    assert(map_of(upd) =~= map_of(entries).insert(k, v)) by {
        assert forall|x: Seq<u8>| #[trigger] map_of(upd).contains_key(x)
            implies map_of(entries).insert(k, v).contains_key(x)
                && map_of(upd)[x] == map_of(entries).insert(k, v)[x] by {
            let p = choose|p: int| 0 <= p < upd.len() && (#[trigger] upd[p]).0 == x;
            assert(map_of(upd)[x] == upd[p].1);
            if p == i {
            } else {
                let po: int = if p < i { p } else { p - 1 };
                assert(upd[p] == entries[po]);
                assert(map_of(entries)[x] == entries[po].1);
                assert(x != k);
            }
        }
        assert forall|x: Seq<u8>| map_of(entries).insert(k, v).contains_key(x)
            implies map_of(upd).contains_key(x) by {
            if x == k {
                assert(upd[i].0 == x);
            } else {
                let p = choose|p: int|
                    0 <= p < entries.len() && (#[trigger] entries[p]).0 == x;
                if p < i {
                    assert(upd[p].0 == x);
                } else {
                    assert(upd[p + 1].0 == x);
                }
            }
        }
    }
}

/// One table: byte keys to byte values, keys strictly ascending.
pub struct Table {
    entries: Vec<(Vec<u8>, Vec<u8>)>,
}

impl View for Table {
    type V = Map<Seq<u8>, Seq<u8>>;

    closed spec fn view(&self) -> Map<Seq<u8>, Seq<u8>> {
        map_of(self.pairs())
    }
}

impl Table {
    /// The key/value pairs in storage order.
    pub closed spec fn pairs(&self) -> Seq<(Seq<u8>, Seq<u8>)> {
        self.entries@.map_values(|e: (Vec<u8>, Vec<u8>)| (e.0@, e.1@))
    }

    /// The keys in storage order.
    pub open spec fn key_seq(&self) -> Seq<Seq<u8>> {
        Seq::new(self.pairs().len(), |i: int| self.pairs()[i].0)
    }

    pub open spec fn wf(&self) -> bool {
        sorted_strict(self.key_seq())
    }

    /// Sorted keys never repeat.
    pub proof fn lemma_distinct(&self)
        requires
            self.wf(),
        ensures
            distinct_keys(self.pairs()),
    {
        assert forall|p: int, q: int| 0 <= p < q < self.pairs().len()
            implies (#[trigger] self.pairs()[p]).0 != (#[trigger] self.pairs()[q]).0 by {
            lemma_sorted_distinct(self.key_seq(), p, q);
            assert(self.key_seq()[p] == self.pairs()[p].0);
            assert(self.key_seq()[q] == self.pairs()[q].0);
        }
    }

    /// The domain of the model is the set of stored keys, and the entry
    /// count is its size.
    pub proof fn lemma_dom(&self)
        requires
            self.wf(),
        ensures
            self@.dom() == self.key_seq().to_set(),
            self@.dom().finite(),
            self@.dom().len() == self.key_seq().len(),
            forall|i: int| 0 <= i < self.key_seq().len()
                ==> self@.contains_key(#[trigger] self.key_seq()[i]),
    {
        self.lemma_distinct();
        lemma_map_of_char(self.pairs());
        assert forall|k: Seq<u8>| #[trigger] self@.dom().contains(k)
            implies self.key_seq().to_set().contains(k) by {
            let i = choose|i: int|
                0 <= i < self.pairs().len() && (#[trigger] self.pairs()[i]).0 == k;
            assert(self.key_seq()[i] == k);
        }
        assert forall|k: Seq<u8>| #[trigger] self.key_seq().to_set().contains(k)
            implies self@.dom().contains(k) by {
            let i = choose|i: int|
                0 <= i < self.key_seq().len() && #[trigger] self.key_seq()[i] == k;
            assert(self.pairs()[i].0 == k);
        }
        assert(self@.dom() =~= self.key_seq().to_set());
        assert forall|i: int| 0 <= i < self.key_seq().len()
            implies self@.contains_key(#[trigger] self.key_seq()[i]) by {
            assert(self.pairs()[i].0 == self.key_seq()[i]);
        }
    }

    /// The value stored under the key at scan position `i`.
    pub proof fn lemma_at(&self, i: int)
        requires
            self.wf(),
            0 <= i < self.key_seq().len(),
        ensures
            self@.contains_key(self.key_seq()[i]),
            self@[self.key_seq()[i]] == self.pairs()[i].1,
    {
        self.lemma_distinct();
        lemma_map_of_char(self.pairs());
        assert(self.pairs()[i].0 == self.key_seq()[i]);
    }

    /// An empty table.
    pub fn new() -> (r: Table)
        ensures
            r.wf(),
            r@ == Map::<Seq<u8>, Seq<u8>>::empty(),
            r.key_seq() == Seq::<Seq<u8>>::empty(),
    {
        let r = Table { entries: Vec::new() };
        proof {
            assert(r.pairs() =~= Seq::<(Seq<u8>, Seq<u8>)>::empty());
            assert(r@ =~= Map::<Seq<u8>, Seq<u8>>::empty());
            assert(r.key_seq() =~= Seq::<Seq<u8>>::empty());
        }
        r
    }

    /// Number of stored entries.
    pub fn count_entries(&self) -> (r: usize)
        requires
            self.wf(),
        ensures
            r == self@.dom().len(),
            r == self.key_seq().len(),
    {
        proof {
            self.lemma_dom();
        }
        self.entries.len()
    }

    /// Position of `key` among the ascending keys: the index of the first
    /// stored key not below `key`.
    fn position(&self, key: &Vec<u8>) -> (r: (usize, bool))
        requires
            self.wf(),
        ensures
            r.0 <= self.key_seq().len(),
            r.1 ==> r.0 < self.key_seq().len() && self.key_seq()[r.0 as int] == key@,
            !r.1 ==> !self@.contains_key(key@),
            forall|j: int| 0 <= j < r.0 ==> lex_lt(#[trigger] self.key_seq()[j], key@),
            r.0 < self.key_seq().len() && !r.1 ==> lex_lt(key@, self.key_seq()[r.0 as int]),
    {
        let n = self.entries.len();
        proof {
            assert(self.key_seq().len() == n);
        }
        let mut i: usize = 0;
        while i < n
            invariant
                0 <= i <= n,
                n == self.key_seq().len(),
                self.wf(),
                forall|j: int| 0 <= j < i ==> lex_lt(#[trigger] self.key_seq()[j], key@),
            decreases n - i,
        {
            proof {
                assert(self.pairs()[i as int].0 == self.key_seq()[i as int]);
            }
            match cmp_bytes(&self.entries[i].0, key) {
                Ordering3::Less => {
                    i = i + 1;
                },
                Ordering3::Equal => {
                    proof {
                        self.lemma_at(i as int);
                    }
                    return (i, true);
                },
                Ordering3::Greater => {
                    proof {
                        self.lemma_not_contained(i as int, key@);
                    }
                    return (i, false);
                },
            }
        }
        proof {
            self.lemma_not_contained(n as int, key@);
        }
        (n, false)
    }

    /// A key below every key from position `i` on, and above every key
    /// before `i`, is not stored.
    proof fn lemma_not_contained(&self, i: int, key: Seq<u8>)
        requires
            self.wf(),
            0 <= i <= self.key_seq().len(),
            forall|j: int| 0 <= j < i ==> lex_lt(#[trigger] self.key_seq()[j], key),
            i < self.key_seq().len() ==> lex_lt(key, self.key_seq()[i]),
        ensures
            !self@.contains_key(key),
    {
        self.lemma_dom();
        if self@.contains_key(key) {
            let j = choose|j: int|
                0 <= j < self.key_seq().len() && #[trigger] self.key_seq()[j] == key;
            if j < i {
                crate::order::lemma_lex_irreflexive(key);
            } else {
                if j > i {
                    lemma_lex_transitive(key, self.key_seq()[i], self.key_seq()[j]);
                }
                crate::order::lemma_lex_irreflexive(key);
            }
        }
    }

    /// Byte-exact read of the last written value, or absence.
    pub fn get(&self, key: &Vec<u8>) -> (r: Option<&Vec<u8>>)
        requires
            self.wf(),
        ensures
            match r {
                Some(v) => self@.contains_key(key@) && v@ == self@[key@],
                None => !self@.contains_key(key@),
            },
    {
        let (i, found) = self.position(key);
        if found {
            proof {
                self.lemma_at(i as int);
                assert(self.pairs()[i as int].1 == self.entries@[i as int].1@);
            }
            Some(&self.entries[i].1)
        } else {
            None
        }
    }

    /// Upsert: afterwards the key holds exactly `value`, everything else is
    /// unchanged.
    pub fn put(&mut self, key: Vec<u8>, value: Vec<u8>)
        requires
            old(self).wf(),
        ensures
            final(self).wf(),
            final(self)@ == old(self)@.insert(key@, value@),
            final(self).key_seq().to_set() == old(self).key_seq().to_set().insert(key@),
    {
        let ghost oldpairs = self.pairs();
        let ghost oldkeys = self.key_seq();
        let (i, found) = self.position(&key);
        proof {
            self.lemma_distinct();
            lemma_map_of_char(oldpairs);
            self.lemma_dom();
        }
        if found {
            self.entries.set(i, (key, value));
            proof {
                let newpairs = self.pairs();
                assert(newpairs =~= oldpairs.update(i as int, (key@, value@)));
                assert(self.key_seq() =~= oldkeys);
                assert(distinct_keys(newpairs)) by {
                    assert(forall|p: int| 0 <= p < newpairs.len()
                        ==> (#[trigger] newpairs[p]).0 == oldkeys[p]);
                }
                lemma_map_of_char(newpairs);
                assert(self@ =~= old(self)@.insert(key@, value@)) by {
                    assert forall|k: Seq<u8>| #[trigger] self@.contains_key(k)
                        implies old(self)@.insert(key@, value@).contains_key(k)
                            && self@[k] == old(self)@.insert(key@, value@)[k] by {
                        let p = choose|p: int|
                            0 <= p < newpairs.len() && (#[trigger] newpairs[p]).0 == k;
                        assert(self@[k] == newpairs[p].1);
                        if p != i {
                            assert(oldpairs[p] == newpairs[p]);
                            assert(old(self)@[k] == oldpairs[p].1);
                            assert(k != key@) by {
                                lemma_sorted_distinct(
                                    oldkeys,
                                    if p < i { p } else { i as int },
                                    if p < i { i as int } else { p },
                                );
                            }
                        }
                    }
                    assert forall|k: Seq<u8>|
                        old(self)@.insert(key@, value@).contains_key(k)
                        implies self@.contains_key(k) by {
                        if k == key@ {
                            assert(newpairs[i as int].0 == k);
                        } else {
                            let p = choose|p: int|
                                0 <= p < oldpairs.len() && (#[trigger] oldpairs[p]).0 == k;
                            assert(newpairs[p].0 == k);
                        }
                    }
                }
                assert(self.key_seq().to_set() =~= oldkeys.to_set().insert(key@));
            }
        } else {
            proof {
                if oldkeys.to_set().contains(key@) {
                    let j = choose|j: int|
                        0 <= j < oldkeys.len() && #[trigger] oldkeys[j] == key@;
                }
            }
            self.entries.insert(i, (key, value));
            proof {
                let newpairs = self.pairs();
                let newkeys = self.key_seq();
                assert forall|p: int| 0 <= p < newpairs.len()
                    implies (#[trigger] newpairs[p])
                        == (if p < i { oldpairs[p] } else if p == i { (key@, value@) }
                            else { oldpairs[p - 1] }) by {
                }
                assert(sorted_strict(newkeys)) by {
                    assert forall|p: int, q: int| 0 <= p < q < newkeys.len()
                        implies lex_lt(newkeys[p], newkeys[q]) by {
                        assert(newkeys[p] == newpairs[p].0);
                        assert(newkeys[q] == newpairs[q].0);
                        if p < i && q > i {
                            lemma_lex_transitive(oldkeys[p], key@, oldkeys[q - 1]);
                        } else if p < i && q == i {
                        } else if p == i && q > i {
                            if q - 1 > i {
                                lemma_lex_transitive(key@, oldkeys[i as int], oldkeys[q - 1]);
                            }
                        } else {
                            assert(lex_lt(oldkeys[if p < i { p } else { p - 1 }],
                                oldkeys[if q < i { q } else { q - 1 }]));
                        }
                    }
                }
                assert(distinct_keys(newpairs)) by {
                    assert forall|p: int, q: int| 0 <= p < q < newpairs.len()
                        implies (#[trigger] newpairs[p]).0
                            != (#[trigger] newpairs[q]).0 by {
                        lemma_sorted_distinct(newkeys, p, q);
                        assert(newkeys[p] == newpairs[p].0);
                        assert(newkeys[q] == newpairs[q].0);
                    }
                }
                lemma_map_of_char(newpairs);
                assert(self@ =~= old(self)@.insert(key@, value@)) by {
                    assert forall|k: Seq<u8>| #[trigger] self@.contains_key(k)
                        implies old(self)@.insert(key@, value@).contains_key(k)
                            && self@[k] == old(self)@.insert(key@, value@)[k] by {
                        let p = choose|p: int|
                            0 <= p < newpairs.len() && (#[trigger] newpairs[p]).0 == k;
                        assert(self@[k] == newpairs[p].1);
                        if p != i {
                            let po: int = if p < i { p } else { p - 1 };
                            assert(oldpairs[po] == newpairs[p]);
                            assert(old(self)@[k] == oldpairs[po].1);
                            assert(k != key@) by {
                                if oldkeys[po] == key@ {
                                    crate::order::lemma_lex_irreflexive(key@);
                                }
                            }
                        }
                    }
                    assert forall|k: Seq<u8>|
                        old(self)@.insert(key@, value@).contains_key(k)
                        implies self@.contains_key(k) by {
                        if k == key@ {
                            assert(newpairs[i as int].0 == k);
                        } else {
                            let p = choose|p: int|
                                0 <= p < oldpairs.len() && (#[trigger] oldpairs[p]).0 == k;
                            if p < i {
                                assert(newpairs[p].0 == k);
                            } else {
                                assert(newpairs[p + 1].0 == k);
                            }
                        }
                    }
                }
                assert(self.key_seq().to_set() =~= oldkeys.to_set().insert(key@)) by {
                    assert forall|x: Seq<u8>| #[trigger] newkeys.to_set().contains(x)
                        implies oldkeys.to_set().insert(key@).contains(x) by {
                        let p = choose|p: int|
                            0 <= p < newkeys.len() && #[trigger] newkeys[p] == x;
                        if p < i {
                            assert(oldkeys[p] == x);
                        } else if p > i {
                            assert(oldkeys[p - 1] == x);
                        }
                    }
                    assert forall|x: Seq<u8>| oldkeys.to_set().insert(key@).contains(x)
                        implies newkeys.to_set().contains(x) by {
                        if x == key@ {
                            assert(newkeys[i as int] == x);
                        } else {
                            let p = choose|p: int|
                                0 <= p < oldkeys.len() && #[trigger] oldkeys[p] == x;
                            if p < i {
                                assert(newkeys[p] == x);
                            } else {
                                assert(newkeys[p + 1] == x);
                            }
                        }
                    }
                }
            }
        }
    }

    /// The key at scan position `i`; scans walk positions `0..` in
    /// ascending key order.
    pub fn key_at(&self, i: usize) -> (r: &Vec<u8>)
        requires
            i < self.key_seq().len(),
        ensures
            r@ == self.key_seq()[i as int],
    {
        proof {
            assert(self.pairs()[i as int].0 == self.entries@[i as int].0@);
        }
        &self.entries[i].0
    }

    /// The value at scan position `i`.
    pub fn value_at(&self, i: usize) -> (r: &Vec<u8>)
        requires
            i < self.key_seq().len(),
        ensures
            r@ == self.pairs()[i as int].1,
    {
        proof {
            assert(self.pairs()[i as int].1 == self.entries@[i as int].1@);
        }
        &self.entries[i].1
    }
}

} // verus!

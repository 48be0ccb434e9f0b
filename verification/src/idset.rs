//! Ordered sets of 32-byte identifiers.
//!
//! An [`IdSet`] keeps its elements strictly ascending under the
//! lexicographic byte order, so it is duplicate-free and its in-memory form
//! is determined by the set of its elements.  Id sets travel in requests
//! and replies and are also the value shape of the read-modify-write
//! "insert" operation.

use vstd::prelude::*;
use crate::chunk::{ChunkId, ID_SIZE};
use crate::order::{
    cmp_bytes, lemma_lex_asymmetric, lemma_lex_irreflexive, lemma_lex_transitive, lex_lt,
    sorted_strict, Ordering3,
};

verus! {

/// A set of 32-byte identifiers, kept strictly ascending.
pub struct IdSet {
    ids: Vec<ChunkId>,
}

impl View for IdSet {
    type V = Seq<Seq<u8>>;

    closed spec fn view(&self) -> Seq<Seq<u8>> {
        self.ids@.map_values(|id: ChunkId| id@)
    }
}

impl IdSet {
    /// Every element is 32 bytes and the sequence is strictly ascending.
    pub open spec fn wf(&self) -> bool {
        &&& sorted_strict(self@)
        &&& forall|i: int| 0 <= i < self@.len() ==> #[trigger] self@[i].len() == ID_SIZE
    }

    /// The mathematical set of the elements.
    pub open spec fn to_set(&self) -> Set<Seq<u8>> {
        self@.to_set()
    }

    pub fn new() -> (r: IdSet)
        ensures
            r.wf(),
            r@ == Seq::<Seq<u8>>::empty(),
            r.to_set() == Set::<Seq<u8>>::empty(),
    {
        let r = IdSet { ids: Vec::new() };
        proof {
            assert(r@ =~= Seq::<Seq<u8>>::empty());
            assert(r.to_set() =~= Set::<Seq<u8>>::empty());
        }
        r
    }

    /// Wraps a vector already known to be strictly ascending.
    pub fn from_sorted(ids: Vec<ChunkId>) -> (r: IdSet)
        requires
            sorted_strict(ids@.map_values(|id: ChunkId| id@)),
            forall|i: int| 0 <= i < ids@.len() ==> (#[trigger] ids@[i])@.len() == ID_SIZE,
        ensures
            r.wf(),
            r@ == ids@.map_values(|id: ChunkId| id@),
    {
        IdSet { ids }
    }

    pub fn len(&self) -> (r: usize)
        ensures
            r == self@.len(),
    {
        self.ids.len()
    }

    pub fn get(&self, i: usize) -> (r: &ChunkId)
        requires
            i < self@.len(),
        ensures
            r@ == self@[i as int],
    {
        &self.ids[i]
    }

    /// Membership under the element set.
    pub fn contains(&self, id: &ChunkId) -> (r: bool)
        ensures
            r == self.to_set().contains(id@),
    {
        let n = self.ids.len();
        let mut i: usize = 0;
        while i < n
            invariant
                0 <= i <= n,
                n == self@.len(),
                forall|j: int| 0 <= j < i ==> #[trigger] self@[j] != id@,
            decreases n - i,
        {
            if matches!(cmp_bytes(self.ids[i].as_bytes(), id.as_bytes()), Ordering3::Equal) {
                assert(self@[i as int] == id@);
                return true;
            }
            i = i + 1;
        }
        proof {
            if self.to_set().contains(id@) {
                let j = choose|j: int| 0 <= j < self@.len() && self@[j] == id@;
                assert(self@[j] != id@);
            }
        }
        false
    }

    /// Inserts an identifier; inserting a member changes nothing.
    pub fn insert(&mut self, id: ChunkId)
        requires
            old(self).wf(),
            id.wf(),
        ensures
            final(self).wf(),
            final(self).to_set() == old(self).to_set().insert(id@),
            final(self)@.len() == old(self)@.len()
                + (if old(self).to_set().contains(id@) { 0int } else { 1int }),
    {
        let ghost oldview = self@;
        let n = self.ids.len();
        let mut i: usize = 0;
        while i < n && matches!(cmp_bytes(self.ids[i].as_bytes(), id.as_bytes()), Ordering3::Less)
            invariant
                0 <= i <= n,
                n == self@.len(),
                self@ == oldview,
                forall|j: int| 0 <= j < i ==> lex_lt(#[trigger] self@[j], id@),
            decreases n - i,
        {
            i = i + 1;
        }
        if i < n {
            let c = cmp_bytes(self.ids[i].as_bytes(), id.as_bytes());
            if matches!(c, Ordering3::Equal) {
                proof {
                    assert(self@[i as int] == id@);
                    assert(self.to_set().contains(id@));
                    assert(self.to_set() =~= self.to_set().insert(id@));
                }
                return;
            }
            proof {
                assert(lex_lt(id@, self@[i as int]));
            }
        }
        // `id` is absent: everything before `i` is below it, everything from
        // `i` on is above it.
        proof {
            assert forall|j: int| i <= j < oldview.len()
                implies lex_lt(id@, #[trigger] oldview[j]) by {
                if j > i {
                    lemma_lex_transitive(id@, oldview[i as int], oldview[j]);
                }
            }
            if oldview.to_set().contains(id@) {
                let j = choose|j: int| 0 <= j < oldview.len() && oldview[j] == id@;
                lemma_lex_irreflexive(id@);
            }
        }
        self.ids.insert(i, id);
        proof {
            let newview = self@;
            assert(newview =~= oldview.take(i as int).push(id@) + oldview.skip(i as int)) by {
                assert forall|j: int| 0 <= j < newview.len()
                    implies newview[j]
                        == (oldview.take(i as int).push(id@) + oldview.skip(i as int))[j] by {
                    if j < i {
                    } else if j == i {
                    } else {
                    }
                }
            }
            assert(sorted_strict(newview)) by {
                assert forall|p: int, q: int| 0 <= p < q < newview.len()
                    implies lex_lt(newview[p], newview[q]) by {
                    if p < i && q == i {
                    } else if p < i && q > i {
                        lemma_lex_transitive(newview[p], id@, newview[q]);
                    } else {
                    }
                }
            }
            assert(newview.to_set() =~= oldview.to_set().insert(id@)) by {
                assert forall|x: Seq<u8>| newview.to_set().contains(x)
                    implies oldview.to_set().insert(id@).contains(x) by {
                    let j = choose|j: int| 0 <= j < newview.len() && newview[j] == x;
                    if j < i {
                        assert(oldview[j] == x);
                    } else if j > i {
                        assert(oldview[j - 1] == x);
                    }
                }
                assert forall|x: Seq<u8>| oldview.to_set().insert(id@).contains(x)
                    implies newview.to_set().contains(x) by {
                    if x == id@ {
                        assert(newview[i as int] == x);
                    } else {
                        let j = choose|j: int| 0 <= j < oldview.len() && oldview[j] == x;
                        if j < i {
                            assert(newview[j] == x);
                        } else {
                            assert(newview[j + 1] == x);
                        }
                    }
                }
            }
        }
    }

    /// Removes an identifier; removing a non-member changes nothing.
    pub fn remove(&mut self, id: &ChunkId)
        requires
            old(self).wf(),
        ensures
            final(self).wf(),
            final(self).to_set() == old(self).to_set().remove(id@),
    {
        let ghost oldview = self@;
        let n = self.ids.len();
        let mut i: usize = 0;
        while i < n
            invariant
                0 <= i <= n,
                n == oldview.len(),
                self@ == oldview,
                oldview == old(self)@,
                old(self).wf(),
                forall|j: int| 0 <= j < i ==> #[trigger] self@[j] != id@,
            decreases n - i,
        {
            if matches!(cmp_bytes(self.ids[i].as_bytes(), id.as_bytes()), Ordering3::Equal) {
                assert(self@[i as int] == id@);
                let ghost old_ids = self.ids@;
                self.ids.remove(i);
                proof {
                    let newview = self@;
                    assert(self.ids@ == old_ids.remove(i as int));
                    assert forall|j: int| 0 <= j < newview.len()
                        implies newview[j]
                            == (if j < i { oldview[j] } else { oldview[j + 1] }) by {
                        if j < i {
                            assert(old_ids.remove(i as int)[j] == old_ids[j]);
                        } else {
                            assert(old_ids.remove(i as int)[j] == old_ids[j + 1]);
                        }
                    }
                    assert(sorted_strict(newview)) by {
                        assert forall|p: int, q: int| 0 <= p < q < newview.len()
                            implies lex_lt(newview[p], newview[q]) by {
                            if p < i && q < i {
                            } else if p < i {
                                assert(newview[q] == oldview[q + 1]);
                            } else {
                                assert(newview[p] == oldview[p + 1]);
                                assert(newview[q] == oldview[q + 1]);
                            }
                        }
                    }
                    assert(newview.to_set() =~= oldview.to_set().remove(id@)) by {
                        assert forall|x: Seq<u8>| newview.to_set().contains(x)
                            implies oldview.to_set().remove(id@).contains(x) by {
                            let j = choose|j: int| 0 <= j < newview.len() && newview[j] == x;
                            if j < i {
                                assert(oldview[j] == x);
                                crate::order::lemma_sorted_distinct(oldview, j, i as int);
                            } else {
                                assert(oldview[j + 1] == x);
                                crate::order::lemma_sorted_distinct(
                                    oldview, i as int, j + 1);
                            }
                        }
                        assert forall|x: Seq<u8>| oldview.to_set().remove(id@).contains(x)
                            implies newview.to_set().contains(x) by {
                            let j = choose|j: int|
                                0 <= j < oldview.len() && oldview[j] == x;
                            assert(j != i);
                            if j < i {
                                assert(newview[j] == x);
                            } else {
                                assert(newview[j - 1] == x);
                            }
                        }
                    }
                }
                return;
            }
            i = i + 1;
        }
        proof {
            assert(self@ == oldview);
            if oldview.to_set().contains(id@) {
                let j = choose|j: int| 0 <= j < oldview.len() && oldview[j] == id@;
                assert(oldview[j] != id@);
            }
            assert(oldview.to_set() =~= oldview.to_set().remove(id@));
        }
    }

    /// Appends an identifier known to come after every present element;
    /// scans that walk keys in ascending order build their result this way.
    pub fn push_max(&mut self, id: ChunkId)
        requires
            old(self).wf(),
            id.wf(),
            old(self)@.len() == 0 || lex_lt(old(self)@.last(), id@),
        ensures
            final(self).wf(),
            final(self)@ == old(self)@.push(id@),
            final(self).to_set() == old(self).to_set().insert(id@),
    {
        let ghost oldview = self@;
        self.ids.push(id);
        proof {
            let newview = self@;
            assert(newview =~= oldview.push(id@));
            assert(sorted_strict(newview)) by {
                assert forall|p: int, q: int| 0 <= p < q < newview.len()
                    implies lex_lt(newview[p], newview[q]) by {
                    if q == newview.len() - 1 && oldview.len() > 0 && p < oldview.len() - 1 {
                        lemma_lex_transitive(oldview[p], oldview.last(), id@);
                    }
                }
            }
            assert(newview.to_set() =~= oldview.to_set().insert(id@)) by {
                assert forall|x: Seq<u8>| newview.to_set().contains(x)
                    implies oldview.to_set().insert(id@).contains(x) by {
                    let j = choose|j: int| 0 <= j < newview.len() && newview[j] == x;
                    if j < oldview.len() {
                        assert(oldview[j] == x);
                    }
                }
                assert forall|x: Seq<u8>| oldview.to_set().insert(id@).contains(x)
                    implies newview.to_set().contains(x) by {
                    if x == id@ {
                        assert(newview[oldview.len() as int] == x);
                    } else {
                        let j = choose|j: int| 0 <= j < oldview.len() && oldview[j] == x;
                        assert(newview[j] == x);
                    }
                }
            }
        }
    }
}

/// Well-formed id sets with the same element set hold the same sequence:
/// the in-memory form is canonical.
pub proof fn lemma_idset_canonical(a: &IdSet, b: &IdSet)
    requires
        a.wf(),
        b.wf(),
        a.to_set() == b.to_set(),
    ensures
        a@ == b@,
{
    crate::order::lemma_sorted_strict_unique(a@, b@);
}

} // verus!

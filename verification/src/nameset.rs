//! Ordered sets of table names.
//!
//! The reply to a table listing carries the set of open table names.  Like
//! the id sets, the names are kept strictly ascending, so the reply has one
//! canonical form for a given set of names.

use vstd::prelude::*;
use crate::order::{clone_bytes, lemma_lex_transitive, lex_lt, sorted_strict};

verus! {

/// A set of byte-string names, kept strictly ascending.
pub struct NameSet {
    names: Vec<Vec<u8>>,
}

impl View for NameSet {
    type V = Seq<Seq<u8>>;

    closed spec fn view(&self) -> Seq<Seq<u8>> {
        self.names@.map_values(|n: Vec<u8>| n@)
    }
}

impl NameSet {
    pub open spec fn wf(&self) -> bool {
        sorted_strict(self@)
    }

    pub open spec fn to_set(&self) -> Set<Seq<u8>> {
        self@.to_set()
    }

    pub fn new() -> (r: NameSet)
        ensures
            r.wf(),
            r@ == Seq::<Seq<u8>>::empty(),
            r.to_set() == Set::<Seq<u8>>::empty(),
    {
        let r = NameSet { names: Vec::new() };
        proof {
            assert(r@ =~= Seq::<Seq<u8>>::empty());
            assert(r.to_set() =~= Set::<Seq<u8>>::empty());
        }
        r
    }

    /// Wraps a vector already known to be strictly ascending.
    pub fn from_sorted(names: Vec<Vec<u8>>) -> (r: NameSet)
        requires
            sorted_strict(names@.map_values(|n: Vec<u8>| n@)),
        ensures
            r.wf(),
            r@ == names@.map_values(|n: Vec<u8>| n@),
    {
        NameSet { names }
    }

    pub fn len(&self) -> (r: usize)
        ensures
            r == self@.len(),
    {
        self.names.len()
    }

    pub fn get(&self, i: usize) -> (r: &Vec<u8>)
        requires
            i < self@.len(),
        ensures
            r@ == self@[i as int],
    {
        &self.names[i]
    }

    /// Appends a name known to come after every present element; builders
    /// that walk names in ascending order use this.
    pub fn push_max(&mut self, name: Vec<u8>)
        requires
            old(self).wf(),
            old(self)@.len() == 0 || lex_lt(old(self)@.last(), name@),
        ensures
            final(self).wf(),
            final(self)@ == old(self)@.push(name@),
            final(self).to_set() == old(self).to_set().insert(name@),
    {
        let ghost oldview = self@;
        self.names.push(name);
        proof {
            let newview = self@;
            assert(newview =~= oldview.push(name@));
            assert(sorted_strict(newview)) by {
                assert forall|p: int, q: int| 0 <= p < q < newview.len()
                    implies lex_lt(newview[p], newview[q]) by {
                    if q == newview.len() - 1 && oldview.len() > 0 && p < oldview.len() - 1 {
                        lemma_lex_transitive(oldview[p], oldview.last(), name@);
                    }
                }
            }
            assert(newview.to_set() =~= oldview.to_set().insert(name@)) by {
                assert forall|x: Seq<u8>| newview.to_set().contains(x)
                    implies oldview.to_set().insert(name@).contains(x) by {
                    let j = choose|j: int| 0 <= j < newview.len() && newview[j] == x;
                    if j < oldview.len() {
                        assert(oldview[j] == x);
                    }
                }
                assert forall|x: Seq<u8>| oldview.to_set().insert(name@).contains(x)
                    implies newview.to_set().contains(x) by {
                    if x == name@ {
                        assert(newview[oldview.len() as int] == x);
                    } else {
                        let j = choose|j: int| 0 <= j < oldview.len() && oldview[j] == x;
                        assert(newview[j] == x);
                    }
                }
            }
        }
    }

    /// A detached copy of the name at position `i`.
    pub fn name_at(&self, i: usize) -> (r: Vec<u8>)
        requires
            i < self@.len(),
        ensures
            r@ == self@[i as int],
    {
        clone_bytes(&self.names[i])
    }
}

/// Well-formed name sets with the same element set hold the same sequence.
pub proof fn lemma_nameset_canonical(a: &NameSet, b: &NameSet)
    requires
        a.wf(),
        b.wf(),
        a.to_set() == b.to_set(),
    ensures
        a@ == b@,
{
    crate::order::lemma_sorted_strict_unique(a@, b@);
}

} // verus!

//! Lexicographic order on byte strings.
//!
//! Table keys, table names and 32-byte identifiers are all byte strings, and
//! every ordered collection of the crate (tables, id sets, the table
//! registry) is kept strictly ascending under this order.  The module gives
//! the specification-level order [`lex_lt`], the total-order lemmas about
//! it, an executable three-way comparison, and the canonical sorted
//! sequence of a finite set of byte strings.

use vstd::prelude::*;

verus! {

/// Strict lexicographic order on byte sequences: `a` comes before `b` when
/// at the first index where they differ `a` holds the smaller byte, or when
/// `a` is a proper prefix of `b`.
pub open spec fn lex_lt(a: Seq<u8>, b: Seq<u8>) -> bool
    decreases a.len(),
{
    if b.len() == 0 {
        false
    } else if a.len() == 0 {
        true
    } else if a[0] < b[0] {
        true
    } else if a[0] == b[0] {
        lex_lt(a.skip(1), b.skip(1))
    } else {
        false
    }
}

pub proof fn lemma_lex_irreflexive(a: Seq<u8>)
    ensures
        !lex_lt(a, a),
    decreases a.len(),
{
    if a.len() > 0 {
        lemma_lex_irreflexive(a.skip(1));
    }
}

/// Any two byte sequences are ordered or equal.
pub proof fn lemma_lex_connected(a: Seq<u8>, b: Seq<u8>)
    ensures
        lex_lt(a, b) || lex_lt(b, a) || a == b,
    decreases a.len(),
{
    if a.len() == 0 && b.len() == 0 {
        assert(a =~= b);
    } else if a.len() > 0 && b.len() > 0 && a[0] == b[0] {
        lemma_lex_connected(a.skip(1), b.skip(1));
        if !lex_lt(a, b) && !lex_lt(b, a) {
            assert(a.skip(1) == b.skip(1));
            assert(a.len() == b.len()) by {
                assert(a.skip(1).len() == b.skip(1).len());
            }
            assert forall|i: int| 0 <= i < a.len() implies a[i] == b[i] by {
                if i >= 1 {
                    assert(a[i] == a.skip(1)[i - 1]);
                    assert(b[i] == b.skip(1)[i - 1]);
                }
            }
            assert(a =~= b);
        }
    }
}

pub proof fn lemma_lex_asymmetric(a: Seq<u8>, b: Seq<u8>)
    ensures
        lex_lt(a, b) ==> !lex_lt(b, a),
    decreases a.len(),
{
    if a.len() > 0 && b.len() > 0 && a[0] == b[0] {
        lemma_lex_asymmetric(a.skip(1), b.skip(1));
    }
}

pub proof fn lemma_lex_transitive(a: Seq<u8>, b: Seq<u8>, c: Seq<u8>)
    ensures
        lex_lt(a, b) && lex_lt(b, c) ==> lex_lt(a, c),
    decreases a.len(),
{
    if a.len() > 0 && b.len() > 0 && c.len() > 0 {
        lemma_lex_transitive(a.skip(1), b.skip(1), c.skip(1));
    }
}

/// Two ordered sequences agree on the order of their tails once a common
/// prefix of length `i` is stripped.
proof fn lemma_lex_skip_common(a: Seq<u8>, b: Seq<u8>, i: int)
    requires
        0 <= i <= a.len(),
        i <= b.len(),
        a.take(i) == b.take(i),
    ensures
        lex_lt(a, b) == lex_lt(a.skip(i), b.skip(i)),
    decreases i,
{
    if i > 0 {
        assert(a[0] == b[0]) by {
            assert(a.take(i)[0] == a[0]);
            assert(b.take(i)[0] == b[0]);
        }
        assert(a.skip(1).take(i - 1) == b.skip(1).take(i - 1)) by {
            assert forall|j: int| 0 <= j < i - 1 implies
                #[trigger] a.skip(1).take(i - 1)[j] == b.skip(1).take(i - 1)[j] by {
                assert(a.take(i)[j + 1] == a[j + 1]);
                assert(b.take(i)[j + 1] == b[j + 1]);
            }
            assert(a.skip(1).take(i - 1) =~= b.skip(1).take(i - 1));
        }
        lemma_lex_skip_common(a.skip(1), b.skip(1), i - 1);
        assert(a.skip(1).skip(i - 1) =~= a.skip(i));
        assert(b.skip(1).skip(i - 1) =~= b.skip(i));
    } else {
        assert(a.skip(0) =~= a);
        assert(b.skip(0) =~= b);
    }
}

/// Result of a three-way comparison.
#[derive(Clone, Copy, Debug, PartialEq, Eq, Structural)]
pub enum Ordering3 {
    Less,
    Equal,
    Greater,
}

/// Three-way lexicographic comparison of two byte strings.
pub fn cmp_bytes(a: &Vec<u8>, b: &Vec<u8>) -> (r: Ordering3)
    ensures
        (r == Ordering3::Less <==> lex_lt(a@, b@)),
        (r == Ordering3::Equal <==> a@ == b@),
        (r == Ordering3::Greater <==> lex_lt(b@, a@)),
{
    proof {
        lemma_lex_connected(a@, b@);
        lemma_lex_asymmetric(a@, b@);
        lemma_lex_asymmetric(b@, a@);
        lemma_lex_irreflexive(a@);
        lemma_lex_irreflexive(b@);
    }
    let n: usize = if a.len() < b.len() { a.len() } else { b.len() };
    let mut i: usize = 0;
    while i < n
        invariant
            0 <= i <= n,
            n <= a.len(),
            n <= b.len(),
            n == a.len() || n == b.len(),
            a@.take(i as int) == b@.take(i as int),
        decreases n - i,
    {
        let x = a[i];
        let y = b[i];
        if x < y {
            proof {
                lemma_lex_skip_common(a@, b@, i as int);
                lemma_lex_skip_common(b@, a@, i as int);
                assert(a@.skip(i as int)[0] == a@[i as int]);
                assert(b@.skip(i as int)[0] == b@[i as int]);
                assert(lex_lt(a@.skip(i as int), b@.skip(i as int)));
                assert(!lex_lt(b@.skip(i as int), a@.skip(i as int)));
            }
            return Ordering3::Less;
        }
        if x > y {
            proof {
                lemma_lex_skip_common(a@, b@, i as int);
                lemma_lex_skip_common(b@, a@, i as int);
                assert(a@.skip(i as int)[0] == a@[i as int]);
                assert(b@.skip(i as int)[0] == b@[i as int]);
                assert(lex_lt(b@.skip(i as int), a@.skip(i as int)));
                assert(!lex_lt(a@.skip(i as int), b@.skip(i as int)));
            }
            return Ordering3::Greater;
        }
        proof {
            assert(a@.take(i + 1) =~= a@.take(i as int).push(a@[i as int]));
            assert(b@.take(i + 1) =~= b@.take(i as int).push(b@[i as int]));
        }
        i = i + 1;
    }
    proof {
        lemma_lex_skip_common(a@, b@, n as int);
        lemma_lex_skip_common(b@, a@, n as int);
        assert(a@.skip(n as int).len() == a@.len() - n);
        assert(b@.skip(n as int).len() == b@.len() - n);
    }
    if a.len() < b.len() {
        Ordering3::Less
    } else if b.len() < a.len() {
        Ordering3::Greater
    } else {
        proof {
            assert(a@ =~= b@) by {
                assert(a@.take(n as int) =~= a@);
                assert(b@.take(n as int) =~= b@);
            }
        }
        Ordering3::Equal
    }
}

/// Byte-string copy with its contents pinned down.
pub fn clone_bytes(v: &Vec<u8>) -> (r: Vec<u8>)
    ensures
        r@ == v@,
{
    let r = v.clone();
    proof {
        assert(r@ =~= v@);
    }
    r
}

/// A sequence of byte strings that is strictly ascending under [`lex_lt`];
/// such a sequence is duplicate-free and is determined by the set of its
/// elements.
pub open spec fn sorted_strict(q: Seq<Seq<u8>>) -> bool {
    forall|i: int, j: int| 0 <= i < j < q.len() ==> lex_lt(q[i], q[j])
}

/// The one strictly ascending sequence whose elements form the set `s`.
pub open spec fn sorted_seq_of(s: Set<Seq<u8>>) -> Seq<Seq<u8>> {
    choose|q: Seq<Seq<u8>>| sorted_strict(q) && q.to_set() == s
}

/// Each element is below its successor.
pub open spec fn adjacent_sorted(q: Seq<Seq<u8>>) -> bool {
    forall|i: int| 0 <= i < q.len() - 1 ==> lex_lt(#[trigger] q[i], q[i + 1])
}

/// A chain of adjacent comparisons orders the whole sequence.
pub proof fn lemma_adjacent_sorted(q: Seq<Seq<u8>>)
    requires
        adjacent_sorted(q),
    ensures
        sorted_strict(q),
{
    assert forall|i: int, j: int| 0 <= i < j < q.len() implies lex_lt(q[i], q[j]) by {
        lemma_chain(q, i, j);
    }
}

proof fn lemma_chain(q: Seq<Seq<u8>>, i: int, j: int)
    requires
        adjacent_sorted(q),
        0 <= i < j < q.len(),
    ensures
        lex_lt(q[i], q[j]),
    decreases j - i,
{
    if j == i + 1 {
        assert(lex_lt(q[i], q[i + 1]));
    } else {
        lemma_chain(q, i, j - 1);
        assert(lex_lt(q[j - 1], q[j - 1 + 1]));
        lemma_lex_transitive(q[i], q[j - 1], q[j]);
    }
}

/// Holds when [`sorted_seq_of`] actually describes `s`: some strictly
/// ascending sequence has `s` as its element set.  Every set that comes out
/// of an ordered collection of the crate satisfies it.
pub open spec fn set_repr_ok(s: Set<Seq<u8>>) -> bool {
    sorted_strict(sorted_seq_of(s)) && sorted_seq_of(s).to_set() == s
}

/// Elements of a strictly ascending sequence are pairwise distinct.
pub proof fn lemma_sorted_distinct(q: Seq<Seq<u8>>, i: int, j: int)
    requires
        sorted_strict(q),
        0 <= i < j < q.len(),
    ensures
        q[i] != q[j],
{
    lemma_lex_irreflexive(q[i]);
}

/// A strictly ascending sequence is determined by the set of its elements.
pub proof fn lemma_sorted_strict_unique(p: Seq<Seq<u8>>, q: Seq<Seq<u8>>)
    requires
        sorted_strict(p),
        sorted_strict(q),
        p.to_set() == q.to_set(),
    ensures
        p == q,
    decreases p.len(),
{
    if p.len() == 0 {
        if q.len() > 0 {
            assert(q.to_set().contains(q[0]));
            assert(p.to_set().contains(q[0]));
        }
        assert(p =~= q);
    } else {
        assert(p.to_set().contains(p[0]));
        assert(q.to_set().contains(p[0]));
        assert(q.len() > 0) by {
            if q.len() == 0 {
                assert(!q.to_set().contains(p[0]));
            }
        }
        assert(q.to_set().contains(q[0]));
        assert(p.to_set().contains(q[0]));
        let jp = choose|jp: int| 0 <= jp < p.len() && p[jp] == q[0];
        let jq = choose|jq: int| 0 <= jq < q.len() && q[jq] == p[0];
        assert(p[0] == q[0]) by {
            if jp > 0 && jq > 0 {
                assert(lex_lt(p[0], p[jp]));
                assert(lex_lt(q[0], q[jq]));
                lemma_lex_asymmetric(p[0], q[0]);
            }
        }
        assert(p.skip(1).to_set() =~= p.to_set().remove(p[0])) by {
            lemma_head_not_in_tail(p);
        }
        assert(q.skip(1).to_set() =~= q.to_set().remove(q[0])) by {
            lemma_head_not_in_tail(q);
        }
        assert(sorted_strict(p.skip(1))) by {
            assert(forall|i: int, j: int| 0 <= i < j < p.skip(1).len()
                ==> #[trigger] lex_lt(p.skip(1)[i], p.skip(1)[j]));
        }
        assert(sorted_strict(q.skip(1))) by {
            assert(forall|i: int, j: int| 0 <= i < j < q.skip(1).len()
                ==> #[trigger] lex_lt(q.skip(1)[i], q.skip(1)[j]));
        }
        lemma_sorted_strict_unique(p.skip(1), q.skip(1));
        assert(p.len() == q.len()) by {
            assert(p.skip(1).len() == q.skip(1).len());
        }
        assert forall|i: int| 0 <= i < p.len() implies p[i] == q[i] by {
            if i >= 1 {
                assert(p[i] == p.skip(1)[i - 1]);
                assert(q[i] == q.skip(1)[i - 1]);
            }
        }
        assert(p =~= q);
    }
}

/// A strictly ascending sequence has as many elements as its element set.
pub proof fn lemma_sorted_to_set_len(q: Seq<Seq<u8>>)
    requires
        sorted_strict(q),
    ensures
        q.to_set().finite(),
        q.to_set().len() == q.len(),
{
    assert(q.no_duplicates()) by {
        assert forall|i: int, j: int| 0 <= i < q.len() && 0 <= j < q.len() && i != j
            implies q[i] != q[j] by {
            if i < j {
                lemma_sorted_distinct(q, i, j);
            } else {
                lemma_sorted_distinct(q, j, i);
            }
        }
    }
    q.unique_seq_to_set();
}

/// In a strictly ascending sequence the first element does not recur, so
/// the set of the tail's elements is the whole set minus the head.
proof fn lemma_head_not_in_tail(p: Seq<Seq<u8>>)
    requires
        sorted_strict(p),
        p.len() > 0,
    ensures
        p.skip(1).to_set() == p.to_set().remove(p[0]),
{
    assert forall|x: Seq<u8>| p.skip(1).to_set().contains(x)
        implies p.to_set().remove(p[0]).contains(x) by {
        let i = choose|i: int| 0 <= i < p.skip(1).len() && p.skip(1)[i] == x;
        assert(p[i + 1] == x);
        assert(p.to_set().contains(x));
        lemma_sorted_distinct(p, 0, i + 1);
    }
    assert forall|x: Seq<u8>| p.to_set().remove(p[0]).contains(x)
        implies p.skip(1).to_set().contains(x) by {
        let i = choose|i: int| 0 <= i < p.len() && p[i] == x;
        assert(i != 0);
        assert(p.skip(1)[i - 1] == x);
        assert(p.skip(1).to_set().contains(x));
    }
    assert(p.skip(1).to_set() =~= p.to_set().remove(p[0]));
}

/// A new element placed at its position in an ascending sequence.
pub open spec fn insert_sorted(q: Seq<Seq<u8>>, x: Seq<u8>) -> Seq<Seq<u8>>
    decreases q.len(),
{
    if q.len() == 0 {
        seq![x]
    } else if lex_lt(x, q[0]) {
        seq![x] + q
    } else {
        seq![q[0]] + insert_sorted(q.skip(1), x)
    }
}

/// Placing a fresh element keeps the sequence ascending and adds exactly
/// that element to the element set.
pub proof fn lemma_insert_sorted(q: Seq<Seq<u8>>, x: Seq<u8>)
    requires
        sorted_strict(q),
        !q.to_set().contains(x),
    ensures
        sorted_strict(insert_sorted(q, x)),
        insert_sorted(q, x).to_set() == q.to_set().insert(x),
    decreases q.len(),
{
    let w = insert_sorted(q, x);
    if q.len() == 0 {
        assert(w =~= seq![x]);
        assert(w.to_set() =~= q.to_set().insert(x)) by {
            assert(w[0] == x);
            assert forall|y: Seq<u8>| q.to_set().insert(x).contains(y)
                implies w.to_set().contains(y) by {
                assert(y == x);
                assert(w[0] == y);
            }
        }
    } else if lex_lt(x, q[0]) {
        assert(w =~= seq![x] + q);
        assert(sorted_strict(w)) by {
            assert forall|p: int, j: int| 0 <= p < j < w.len()
                implies lex_lt(w[p], w[j]) by {
                if p == 0 {
                    assert(w[j] == q[j - 1]);
                    if j > 1 {
                        lemma_lex_transitive(x, q[0], q[j - 1]);
                    }
                } else {
                    assert(w[p] == q[p - 1]);
                    assert(w[j] == q[j - 1]);
                }
            }
        }
        assert(w.to_set() =~= q.to_set().insert(x)) by {
            assert forall|y: Seq<u8>| w.to_set().contains(y)
                implies q.to_set().insert(x).contains(y) by {
                let p = choose|p: int| 0 <= p < w.len() && w[p] == y;
                if p > 0 {
                    assert(q[p - 1] == y);
                }
            }
            assert forall|y: Seq<u8>| q.to_set().insert(x).contains(y)
                implies w.to_set().contains(y) by {
                if y == x {
                    assert(w[0] == y);
                } else {
                    let p = choose|p: int| 0 <= p < q.len() && q[p] == y;
                    assert(w[p + 1] == y);
                }
            }
        }
    } else {
        let tail = q.skip(1);
        assert(q.to_set().contains(q[0]));
        assert(x != q[0]);
        lemma_lex_connected(x, q[0]);
        assert(lex_lt(q[0], x));
        assert(sorted_strict(tail)) by {
            assert(forall|p: int, j: int| 0 <= p < j < tail.len()
                ==> lex_lt(#[trigger] tail[p], #[trigger] tail[j]));
        }
        assert(!tail.to_set().contains(x)) by {
            if tail.to_set().contains(x) {
                let p = choose|p: int| 0 <= p < tail.len() && tail[p] == x;
                assert(q[p + 1] == x);
                assert(q.to_set().contains(x));
            }
        }
        lemma_insert_sorted(tail, x);
        let wt = insert_sorted(tail, x);
        assert(w == seq![q[0]] + wt);
        assert(sorted_strict(w)) by {
            assert forall|p: int, j: int| 0 <= p < j < w.len()
                implies lex_lt(w[p], w[j]) by {
                if p == 0 {
                    assert(w[j] == wt[j - 1]);
                    assert(wt.to_set().contains(wt[j - 1]));
                    if wt[j - 1] == x {
                        assert(lex_lt(q[0], x));
                    } else {
                        assert(tail.to_set().contains(wt[j - 1]));
                        let u = choose|u: int| 0 <= u < tail.len() && tail[u] == wt[j - 1];
                        assert(q[u + 1] == wt[j - 1]);
                        assert(lex_lt(q[0], q[u + 1]));
                    }
                } else {
                    assert(w[p] == wt[p - 1]);
                    assert(w[j] == wt[j - 1]);
                }
            }
        }
        assert(w.to_set() =~= q.to_set().insert(x)) by {
            assert forall|y: Seq<u8>| w.to_set().contains(y)
                implies q.to_set().insert(x).contains(y) by {
                let p = choose|p: int| 0 <= p < w.len() && w[p] == y;
                if p == 0 {
                    assert(q.to_set().contains(q[0]));
                } else {
                    assert(wt.to_set().contains(y)) by {
                        assert(wt[p - 1] == y);
                    }
                    if y != x {
                        assert(tail.to_set().contains(y));
                        let u = choose|u: int| 0 <= u < tail.len() && tail[u] == y;
                        assert(q[u + 1] == y);
                        assert(q.to_set().contains(y));
                    }
                }
            }
            assert forall|y: Seq<u8>| q.to_set().insert(x).contains(y)
                implies w.to_set().contains(y) by {
                if y == x || tail.to_set().contains(y) {
                    assert(wt.to_set().contains(y));
                    let u = choose|u: int| 0 <= u < wt.len() && wt[u] == y;
                    assert(w[u + 1] == y);
                } else {
                    let p = choose|p: int| 0 <= p < q.len() && q[p] == y;
                    if p == 0 {
                        assert(w[0] == y);
                    } else {
                        assert(tail[p - 1] == y);
                        assert(tail.to_set().contains(y));
                    }
                }
            }
        }
    }
}

/// Adding one element to the set of an ascending sequence leaves a set
/// that an ascending sequence still describes.
pub proof fn lemma_set_insert_repr(q: Seq<Seq<u8>>, x: Seq<u8>)
    requires
        sorted_strict(q),
    ensures
        set_repr_ok(q.to_set().insert(x)),
        sorted_seq_of(q.to_set().insert(x)).to_set() == q.to_set().insert(x),
{
    if q.to_set().contains(x) {
        assert(q.to_set().insert(x) =~= q.to_set());
        lemma_sorted_seq_of(q);
    } else {
        lemma_insert_sorted(q, x);
        lemma_sorted_seq_of(insert_sorted(q, x));
    }
}

/// Rounds out [`sorted_seq_of`]: a strictly ascending sequence is the
/// canonical sequence of its own element set.
pub proof fn lemma_sorted_seq_of(q: Seq<Seq<u8>>)
    requires
        sorted_strict(q),
    ensures
        sorted_seq_of(q.to_set()) == q,
{
    let p = sorted_seq_of(q.to_set());
    assert(sorted_strict(p) && p.to_set() == q.to_set()) by {
        assert(sorted_strict(q) && q.to_set() == q.to_set());
    }
    lemma_sorted_strict_unique(p, q);
}

} // verus!

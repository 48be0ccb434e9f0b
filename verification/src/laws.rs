//! The store's laws: properties that hold of every state and every input,
//! stated over the semantic model [`crate::service::apply`] and proved once
//! and for all.

use vstd::prelude::*;
use crate::chunk::{chunk_id_of, ID_SIZE, MAX_CHUNK_SIZE};
use crate::codec::{dec_set_value, enc_idseq, lemma_dec_set_value, MAX_SET_ITEMS};
use crate::order::{
    lemma_set_insert_repr, lemma_sorted_seq_of, lemma_sorted_to_set_len, sorted_seq_of,
    sorted_strict,
};
use crate::reply::RepModel;
use crate::request::ReqModel;
use crate::service::{all_keys_are_ids, apply, unknown_table_rep, StoreModel};

verus! {

/// Content-address determinism: storing byte-identical chunks returns the
/// same identifier both times, whatever the states, tables and keys
/// involved.
pub proof fn lemma_content_address_deterministic(
    m1: StoreModel,
    t1: Seq<u8>,
    k1: Seq<u8>,
    m2: StoreModel,
    t2: Seq<u8>,
    k2: Seq<u8>,
    c: Seq<u8>,
)
    requires
        m1.contains_key(t1),
        m2.contains_key(t2),
    ensures
        apply(m1, ReqModel::Store { table: t1, key: k1, chunk: c }).1
            == apply(m2, ReqModel::Store { table: t2, key: k2, chunk: c }).1,
        apply(m1, ReqModel::Store { table: t1, key: k1, chunk: c }).1
            == (RepModel::ChunkId { id: chunk_id_of(c) }),
{
}

/// Round trip: retrieving a key right after storing a chunk under it gives
/// the chunk bytes back unchanged, and the retrieval changes nothing.
pub proof fn lemma_store_retrieve_round_trip(m: StoreModel, t: Seq<u8>, k: Seq<u8>, c: Seq<u8>)
    requires
        m.contains_key(t),
        c.len() <= MAX_CHUNK_SIZE,
    ensures
        ({
            let m1 = apply(m, ReqModel::Store { table: t, key: k, chunk: c }).0;
            apply(m1, ReqModel::Retrieve { table: t, key: k })
                == (m1, RepModel::Chunk { chunk: c })
        }),
{
}

/// Absence: retrieving a key never stored in an opened table reports the
/// key absent — never an error — and changes nothing.
pub proof fn lemma_retrieve_absent(m: StoreModel, t: Seq<u8>, k: Seq<u8>)
    requires
        m.contains_key(t),
        !m[t].contains_key(k),
    ensures
        apply(m, ReqModel::Retrieve { table: t, key: k })
            == (m, RepModel::KeyAbsent { key: k }),
{
}

/// The table a request operates on, where the request must find it already
/// open; the table-opening request itself is exempt.
pub open spec fn req_table(rm: ReqModel) -> Option<Seq<u8>> {
    match rm {
        ReqModel::Use { .. } => None,
        ReqModel::Tables => None,
        ReqModel::Count { table } => Some(table),
        ReqModel::Store { table, .. } => Some(table),
        ReqModel::Retrieve { table, .. } => Some(table),
        ReqModel::Insert { table, .. } => Some(table),
        ReqModel::ListIds { table } => Some(table),
        ReqModel::CheckUnknown { table, .. } => Some(table),
    }
}

/// Unknown table: every operation against a table never opened fails with
/// the database-coded failure and changes nothing.
pub proof fn lemma_unknown_table(m: StoreModel, rm: ReqModel)
    requires
        req_table(rm) is Some,
        !m.contains_key(req_table(rm)->Some_0),
    ensures
        apply(m, rm).0 == m,
        apply(m, rm).1 == unknown_table_rep(req_table(rm)->Some_0),
{
}

/// Set-insert idempotence: once an insert of an item has succeeded,
/// inserting the same item under the same key again succeeds and leaves
/// the whole store unchanged — the stored set holds the item once.
pub proof fn lemma_insert_idempotent(m: StoreModel, t: Seq<u8>, k: Seq<u8>, x: Seq<u8>)
    requires
        x.len() == ID_SIZE,
        apply(m, ReqModel::Insert { table: t, key: k, item: x }).1 is Success,
    ensures
        ({
            let m1 = apply(m, ReqModel::Insert { table: t, key: k, item: x }).0;
            apply(m1, ReqModel::Insert { table: t, key: k, item: x })
                == (m1, RepModel::Success)
        }),
{
    let rm = ReqModel::Insert { table: t, key: k, item: x };
    let m1 = apply(m, rm).0;
    assert(m.contains_key(t));
    let cur = if m[t].contains_key(k) {
        m[t][k]
    } else {
        Seq::<u8>::empty()
    };
    let parsed = if cur.len() == 0 {
        Some(Seq::<Seq<u8>>::empty())
    } else {
        dec_set_value(cur)
    };
    let q = parsed->Some_0;
    assert(sorted_strict(q) && (forall|i: int| 0 <= i < q.len()
        ==> (#[trigger] q[i]).len() == ID_SIZE)) by {
        if cur.len() != 0 {
            crate::codec::lemma_dec_set_value_sound(cur);
        }
    }
    let merged = q.to_set().insert(x);
    assert(merged.len() <= MAX_SET_ITEMS);
    lemma_set_insert_repr(q, x);
    let w = sorted_seq_of(merged);
    assert(sorted_strict(w) && w.to_set() == merged);
    assert(forall|i: int| 0 <= i < w.len() ==> (#[trigger] w[i]).len() == ID_SIZE) by {
        assert forall|i: int| 0 <= i < w.len()
            implies (#[trigger] w[i]).len() == ID_SIZE by {
            assert(w.to_set().contains(w[i]));
            if w[i] != x {
                let p = choose|p: int| 0 <= p < q.len() && q[p] == w[i];
                assert(q[p].len() == ID_SIZE);
            }
        }
    }
    assert(w.len() <= MAX_SET_ITEMS) by {
        lemma_sorted_to_set_len(w);
    }
    let stored = enc_idseq(w);
    assert(m1 == m.insert(t, m[t].insert(k, stored)));
    assert(m1[t][k] == stored);
    assert(stored.len() >= 2) by {
        crate::codec::lemma_enc_le_len(w.len(), 2);
        crate::codec::lemma_concat_parts(
            crate::codec::enc_le(w.len(), 2), crate::codec::enc_ids(w));
    }
    lemma_dec_set_value(w);
    // The second insert parses the freshly stored set back and merges the
    // item into a set that already holds it.
    let merged2 = w.to_set().insert(x);
    assert(merged2 =~= merged) by {
        assert(merged.contains(x));
    }
    lemma_sorted_seq_of(w);
    assert(sorted_seq_of(merged2) == w);
    assert(merged2.len() <= MAX_SET_ITEMS) by {
        lemma_sorted_to_set_len(w);
    }
    let m2 = apply(m1, rm).0;
    assert(m2 == m1.insert(t, m1[t].insert(k, stored)));
    assert(m1[t].insert(k, stored) =~= m1[t]);
    assert(m1.insert(t, m1[t]) =~= m1);
    assert(apply(m1, rm).1 == RepModel::Success);
}

/// Check-unknown correctness: the reply is exactly the candidate set minus
/// the keys present, the state is untouched, and running the query twice
/// with no store in between gives the same answer.
pub proof fn lemma_check_unknown(m: StoreModel, t: Seq<u8>, cand: Set<Seq<u8>>)
    requires
        m.contains_key(t),
        all_keys_are_ids(m[t]),
    ensures
        apply(m, ReqModel::CheckUnknown { table: t, ids: cand })
            == (m, RepModel::Ids { ids: cand.difference(m[t].dom()) }),
        apply(apply(m, ReqModel::CheckUnknown { table: t, ids: cand }).0,
            ReqModel::CheckUnknown { table: t, ids: cand }).1
            == apply(m, ReqModel::CheckUnknown { table: t, ids: cand }).1,
{
}

/// One run of the daemon over a sequence of requests: each request is
/// processed to completion against the state the previous ones left.
pub open spec fn run_seq(m: StoreModel, reqs: Seq<ReqModel>) -> (StoreModel, Seq<RepModel>)
    decreases reqs.len(),
{
    if reqs.len() == 0 {
        (m, Seq::empty())
    } else {
        let first = apply(m, reqs[0]);
        let rest = run_seq(first.0, reqs.skip(1));
        (rest.0, seq![first.1] + rest.1)
    }
}

/// Ordering: a run yields exactly one reply per request, in request order;
/// the i-th reply answers the i-th request against the state after the
/// first i requests.
pub proof fn lemma_fifo_replies(m: StoreModel, reqs: Seq<ReqModel>)
    ensures
        run_seq(m, reqs).1.len() == reqs.len(),
        forall|i: int| 0 <= i < reqs.len() ==> run_seq(m, reqs).1[i]
            == apply(run_seq(m, reqs.take(i)).0, reqs[i]).1,
    decreases reqs.len(),
{
    if reqs.len() > 0 {
        let m1 = apply(m, reqs[0]).0;
        lemma_fifo_replies(m1, reqs.skip(1));
        assert forall|i: int| 0 <= i < reqs.len() implies run_seq(m, reqs).1[i]
            == apply(run_seq(m, reqs.take(i)).0, reqs[i]).1 by {
            if i == 0 {
                assert(reqs.take(0) =~= Seq::<ReqModel>::empty());
            } else {
                assert(run_seq(m, reqs).1[i] == run_seq(m1, reqs.skip(1)).1[i - 1]);
                assert(reqs.skip(1)[i - 1] == reqs[i]);
                assert(reqs.skip(1).take(i - 1) =~= reqs.take(i).skip(1));
                assert(reqs.take(i)[0] == reqs[0]);
                assert(run_seq(m, reqs.take(i)).0
                    == run_seq(m1, reqs.take(i).skip(1)).0);
            }
        }
    }
}

} // verus!

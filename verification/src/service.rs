//! The request runtime: the table registry and the dispatcher.
//!
//! The runtime owns the open tables.  Its mathematical model is a map from
//! table name to table contents, and one specification function, [`apply`],
//! says for every request what the next state and the one reply are.  Each
//! handler is proved against its slice of `apply`; the dispatcher decodes
//! one request, runs the one handler, and hands back exactly one reply
//! together with the durability action the embedding process must perform
//! before sending that reply.
//!
//! Everything here is strictly sequential: one request is processed to
//! completion before the next is looked at, so replies leave in request
//! order and the read-modify-write of the set-insert operation needs no
//! locking.

use vstd::prelude::*;
use crate::chunk::{
    chunk_id_of, content_address, Chunk, ChunkId, PrimaryKey, ID_SIZE, MAX_CHUNK_SIZE,
};
use crate::codec::{
    dec_req, dec_set_value, decode_request, enc_idseq, parse_id_set,
    serialize_id_set, MAX_NAME_SIZE, MAX_SET_ITEMS,
};
use crate::error::{DaemonError, ErrModel, FailureCode};
use crate::idset::IdSet;
use crate::nameset::NameSet;
use crate::order::{
    clone_bytes, cmp_bytes, lemma_lex_irreflexive, lemma_lex_transitive, lemma_sorted_distinct,
    lemma_sorted_seq_of, lemma_sorted_to_set_len, lex_lt, sorted_seq_of, sorted_strict, Ordering3,
};
use crate::reply::{failure_rep_of, Failure, RepModel, Reply};
use crate::request::ReqModel;
use crate::request::Request;
use crate::table::{
    distinct_keys, lemma_map_of_char, lemma_map_of_insert_fresh, lemma_map_of_update, map_of,
    Table,
};

verus! {

/// The model of the whole store: table name to table contents.
pub type StoreModel = Map<Seq<u8>, Map<Seq<u8>, Seq<u8>>>;

/// Every key of the table parses as a 32-byte identifier.
pub open spec fn all_keys_are_ids(t: Map<Seq<u8>, Seq<u8>>) -> bool {
    forall|k: Seq<u8>| t.contains_key(k) ==> k.len() == ID_SIZE
}

/// The failure reply for a request that names a table never opened.
pub open spec fn unknown_table_rep(table: Seq<u8>) -> RepModel {
    failure_rep_of(ErrModel::UnknownTable { table })
}

/// The failure reply for stored bytes that do not parse.
pub open spec fn encoding_rep() -> RepModel {
    failure_rep_of(ErrModel::Encoding)
}

/// The failure reply for an inbound message that does not decode.
pub open spec fn presentation_rep() -> RepModel {
    RepModel::Failure { code: FailureCode::Presentation, info: Seq::empty() }
}

/// What one request does: the next store state and the one reply.  This is
/// the semantic heart of the daemon; every handler is proved against it.
pub open spec fn apply(m: StoreModel, rm: ReqModel) -> (StoreModel, RepModel) {
    match rm {
        ReqModel::Use { table } => (
            if m.contains_key(table) {
                m
            } else {
                m.insert(table, Map::empty())
            },
            RepModel::Success,
        ),
        ReqModel::Tables => (m, RepModel::Tables { tables: m.dom() }),
        ReqModel::Count { table } => if m.contains_key(table) {
            (m, RepModel::Count { count: m[table].dom().len() })
        } else {
            (m, unknown_table_rep(table))
        },
        ReqModel::Store { table, key, chunk } => if m.contains_key(table) {
            (
                m.insert(table, m[table].insert(key, chunk)),
                RepModel::ChunkId { id: chunk_id_of(chunk) },
            )
        } else {
            (m, unknown_table_rep(table))
        },
        ReqModel::Retrieve { table, key } => if m.contains_key(table) {
            if m[table].contains_key(key) {
                if m[table][key].len() <= MAX_CHUNK_SIZE {
                    (m, RepModel::Chunk { chunk: m[table][key] })
                } else {
                    (m, encoding_rep())
                }
            } else {
                (m, RepModel::KeyAbsent { key })
            }
        } else {
            (m, unknown_table_rep(table))
        },
        ReqModel::Insert { table, key, item } => if m.contains_key(table) {
            let cur = if m[table].contains_key(key) {
                m[table][key]
            } else {
                Seq::empty()
            };
            let parsed = if cur.len() == 0 {
                Some(Seq::<Seq<u8>>::empty())
            } else {
                dec_set_value(cur)
            };
            match parsed {
                None => (m, encoding_rep()),
                Some(q) => {
                    let merged = q.to_set().insert(item);
                    if merged.len() > MAX_SET_ITEMS {
                        (m, encoding_rep())
                    } else {
                        (
                            m.insert(table,
                                m[table].insert(key, enc_idseq(sorted_seq_of(merged)))),
                            RepModel::Success,
                        )
                    }
                },
            }
        } else {
            (m, unknown_table_rep(table))
        },
        ReqModel::ListIds { table } => if m.contains_key(table) {
            if all_keys_are_ids(m[table]) {
                (m, RepModel::Ids { ids: m[table].dom() })
            } else {
                (m, encoding_rep())
            }
        } else {
            (m, unknown_table_rep(table))
        },
        ReqModel::CheckUnknown { table, ids } => if m.contains_key(table) {
            if all_keys_are_ids(m[table]) {
                (m, RepModel::Ids { ids: ids.difference(m[table].dom()) })
            } else {
                (m, encoding_rep())
            }
        } else {
            (m, unknown_table_rep(table))
        },
    }
}

/// What one raw message does: a message that does not decode changes
/// nothing and is answered with a presentation failure.
pub open spec fn apply_bytes(m: StoreModel, raw: Seq<u8>) -> (StoreModel, RepModel) {
    match dec_req(raw) {
        Some(rm) => apply(m, rm),
        None => (m, presentation_rep()),
    }
}

/// Mathematical model of a durability action.
pub enum ActModel {
    Open { table: Seq<u8> },
    Put { table: Seq<u8>, key: Seq<u8>, value: Seq<u8> },
}

/// The durability work the embedding process performs before the reply is
/// sent: opening a table on disk, or writing one key durably.
pub enum Action {
    /// Open (creating if absent) the named table of the on-disk store.
    Open(Vec<u8>),
    /// Durably write `value` under `key` in the named table.
    Put { table: Vec<u8>, key: Vec<u8>, value: Vec<u8> },
}

impl View for Action {
    type V = ActModel;

    open spec fn view(&self) -> ActModel {
        match self {
            Action::Open(t) => ActModel::Open { table: t@ },
            Action::Put { table, key, value } => ActModel::Put {
                table: table@,
                key: key@,
                value: value@,
            },
        }
    }
}

pub open spec fn opt_act_view(a: &Option<Action>) -> Option<ActModel> {
    match a {
        Some(x) => Some(x@),
        None => None,
    }
}

/// The durability action a request calls for, if any.
pub open spec fn action_of(m: StoreModel, rm: ReqModel) -> Option<ActModel> {
    match rm {
        ReqModel::Use { table } => Some(ActModel::Open { table }),
        ReqModel::Store { table, key, chunk } => if m.contains_key(table) {
            Some(ActModel::Put { table, key, value: chunk })
        } else {
            None
        },
        ReqModel::Insert { table, key, item } => if apply(m, rm).1 is Success {
            Some(ActModel::Put { table, key, value: apply(m, rm).0[table][key] })
        } else {
            None
        },
        _ => None,
    }
}

/// The durability action a raw message calls for.
pub open spec fn act_bytes(m: StoreModel, raw: Seq<u8>) -> Option<ActModel> {
    match dec_req(raw) {
        Some(rm) => action_of(m, rm),
        None => None,
    }
}

/// The reply a handler result stands for: its own reply, or the failure
/// reply of its error.
pub open spec fn rep_of_result(r: &Result<Reply, DaemonError>) -> RepModel {
    match r {
        Ok(rep) => rep@,
        Err(e) => failure_rep_of(e@),
    }
}

/// The table registry and the tables it owns, names strictly ascending.
pub struct Runtime {
    tables: Vec<(Vec<u8>, Table)>,
}

impl View for Runtime {
    type V = StoreModel;

    closed spec fn view(&self) -> StoreModel {
        map_of(self.reg_pairs())
    }
}

impl Runtime {
    /// The name/contents pairs in storage order.
    pub closed spec fn reg_pairs(&self) -> Seq<(Seq<u8>, Map<Seq<u8>, Seq<u8>>)> {
        self.tables@.map_values(|e: (Vec<u8>, Table)| (e.0@, e.1@))
    }

    /// The open table names in storage order.
    pub open spec fn name_seq(&self) -> Seq<Seq<u8>> {
        Seq::new(self.reg_pairs().len(), |i: int| self.reg_pairs()[i].0)
    }

    /// Names strictly ascending and within the wire bound, every table
    /// well-formed.
    pub closed spec fn wf(&self) -> bool {
        &&& sorted_strict(self.name_seq())
        &&& forall|i: int| 0 <= i < self.tables@.len()
            ==> (#[trigger] self.tables@[i]).1.wf()
                && self.tables@[i].0@.len() <= MAX_NAME_SIZE
    }

    proof fn lemma_reg_distinct(&self)
        requires
            self.wf(),
        ensures
            distinct_keys(self.reg_pairs()),
    {
        assert forall|p: int, q: int| 0 <= p < q < self.reg_pairs().len()
            implies (#[trigger] self.reg_pairs()[p]).0
                != (#[trigger] self.reg_pairs()[q]).0 by {
            lemma_sorted_distinct(self.name_seq(), p, q);
            assert(self.name_seq()[p] == self.reg_pairs()[p].0);
            assert(self.name_seq()[q] == self.reg_pairs()[q].0);
        }
    }

    /// The open table names are the domain of the model.
    pub proof fn lemma_reg_dom(&self)
        requires
            self.wf(),
        ensures
            self@.dom() == self.name_seq().to_set(),
            self@.dom().finite(),
            self@.dom().len() == self.name_seq().len(),
            forall|i: int| 0 <= i < self.name_seq().len()
                ==> self@.contains_key(#[trigger] self.name_seq()[i]),
    {
        self.lemma_reg_distinct();
        lemma_map_of_char(self.reg_pairs());
        assert forall|k: Seq<u8>| #[trigger] self@.dom().contains(k)
            implies self.name_seq().to_set().contains(k) by {
            let i = choose|i: int|
                0 <= i < self.reg_pairs().len() && (#[trigger] self.reg_pairs()[i]).0 == k;
            assert(self.name_seq()[i] == k);
        }
        assert forall|k: Seq<u8>| #[trigger] self.name_seq().to_set().contains(k)
            implies self@.dom().contains(k) by {
            let i = choose|i: int|
                0 <= i < self.name_seq().len() && #[trigger] self.name_seq()[i] == k;
            assert(self.reg_pairs()[i].0 == k);
        }
        assert(self@.dom() =~= self.name_seq().to_set());
        assert forall|i: int| 0 <= i < self.name_seq().len()
            implies self@.contains_key(#[trigger] self.name_seq()[i]) by {
            assert(self.reg_pairs()[i].0 == self.name_seq()[i]);
        }
    }

    /// The contents registered under the name at position `i`.
    pub proof fn lemma_reg_at(&self, i: int)
        requires
            self.wf(),
            0 <= i < self.name_seq().len(),
        ensures
            self@.contains_key(self.name_seq()[i]),
            self@[self.name_seq()[i]] == self.reg_pairs()[i].1,
    {
        self.lemma_reg_distinct();
        lemma_map_of_char(self.reg_pairs());
        assert(self.reg_pairs()[i].0 == self.name_seq()[i]);
    }

    proof fn lemma_reg_not_contained(&self, i: int, name: Seq<u8>)
        requires
            self.wf(),
            0 <= i <= self.name_seq().len(),
            forall|j: int| 0 <= j < i ==> lex_lt(#[trigger] self.name_seq()[j], name),
            i < self.name_seq().len() ==> lex_lt(name, self.name_seq()[i]),
        ensures
            !self@.contains_key(name),
    {
        self.lemma_reg_dom();
        if self@.contains_key(name) {
            let j = choose|j: int|
                0 <= j < self.name_seq().len() && #[trigger] self.name_seq()[j] == name;
            if j < i {
                lemma_lex_irreflexive(name);
            } else {
                if j > i {
                    lemma_lex_transitive(name, self.name_seq()[i], self.name_seq()[j]);
                }
                lemma_lex_irreflexive(name);
            }
        }
    }

    /// A daemon with no tables open.
    pub fn new() -> (r: Runtime)
        ensures
            r.wf(),
            r@ == Map::<Seq<u8>, Map<Seq<u8>, Seq<u8>>>::empty(),
    {
        let r = Runtime { tables: Vec::new() };
        proof {
            assert(r.reg_pairs() =~= Seq::<(Seq<u8>, Map<Seq<u8>, Seq<u8>>)>::empty());
            assert(r@ =~= Map::<Seq<u8>, Map<Seq<u8>, Seq<u8>>>::empty());
            assert(r.name_seq() =~= Seq::<Seq<u8>>::empty());
        }
        r
    }

    /// Position of `name` among the ascending registry names.
    fn position(&self, name: &Vec<u8>) -> (r: (usize, bool))
        requires
            self.wf(),
        ensures
            r.0 <= self.name_seq().len(),
            r.1 ==> r.0 < self.name_seq().len() && self.name_seq()[r.0 as int] == name@
                && self@.contains_key(name@),
            !r.1 ==> !self@.contains_key(name@),
            forall|j: int| 0 <= j < r.0 ==> lex_lt(#[trigger] self.name_seq()[j], name@),
            r.0 < self.name_seq().len() && !r.1
                ==> lex_lt(name@, self.name_seq()[r.0 as int]),
    {
        let n = self.tables.len();
        proof {
            assert(self.name_seq().len() == n);
        }
        let mut i: usize = 0;
        while i < n
            invariant
                0 <= i <= n,
                n == self.name_seq().len(),
                self.wf(),
                forall|j: int| 0 <= j < i ==> lex_lt(#[trigger] self.name_seq()[j], name@),
            decreases n - i,
        {
            proof {
                assert(self.reg_pairs()[i as int].0 == self.name_seq()[i as int]);
            }
            match cmp_bytes(&self.tables[i].0, name) {
                Ordering3::Less => {
                    i = i + 1;
                },
                Ordering3::Equal => {
                    proof {
                        self.lemma_reg_at(i as int);
                    }
                    return (i, true);
                },
                Ordering3::Greater => {
                    proof {
                        self.lemma_reg_not_contained(i as int, name@);
                    }
                    return (i, false);
                },
            }
        }
        proof {
            self.lemma_reg_not_contained(n as int, name@);
        }
        (n, false)
    }

    /// Registers `tbl` under `name`: at position `i` where `found` says the
    /// name is already registered, else inserted at position `i` to keep
    /// the names ascending.
    fn set_table(&mut self, i: usize, found: bool, name: Vec<u8>, tbl: Table)
        requires
            old(self).wf(),
            tbl.wf(),
            name@.len() <= MAX_NAME_SIZE,
            i <= old(self).name_seq().len(),
            found ==> i < old(self).name_seq().len()
                && old(self).name_seq()[i as int] == name@,
            !found ==> forall|j: int| 0 <= j < i
                ==> lex_lt(#[trigger] old(self).name_seq()[j], name@),
            !found && i < old(self).name_seq().len()
                ==> lex_lt(name@, old(self).name_seq()[i as int]),
        ensures
            final(self).wf(),
            final(self)@ == old(self)@.insert(name@, tbl@),
    {
        let ghost oldpairs = self.reg_pairs();
        let ghost oldnames = self.name_seq();
        proof {
            self.lemma_reg_distinct();
        }
        if found {
            let ghost oldtables = self.tables@;
            self.tables.remove(i);
            self.tables.insert(i, (name, tbl));
            proof {
                assert(self.tables@ =~= oldtables.update(i as int, self.tables@[i as int]));
                let newpairs = self.reg_pairs();
                assert(newpairs =~= oldpairs.update(i as int, (name@, tbl@)));
                assert(oldpairs[i as int].0 == name@);
                lemma_map_of_update(oldpairs, i as int, tbl@);
                assert(self.name_seq() =~= oldnames);
            }
        } else {
            proof {
                assert forall|p: int| 0 <= p < oldpairs.len()
                    implies (#[trigger] oldpairs[p]).0 != name@ by {
                    assert(oldpairs[p].0 == oldnames[p]);
                    if p < i {
                        lemma_lex_irreflexive(name@);
                    } else {
                        if p > i {
                            lemma_lex_transitive(name@, oldnames[i as int], oldnames[p]);
                        }
                        lemma_lex_irreflexive(name@);
                    }
                }
            }
            self.tables.insert(i, (name, tbl));
            proof {
                let newpairs = self.reg_pairs();
                let newnames = self.name_seq();
                assert(newpairs =~= oldpairs.insert(i as int, (name@, tbl@)));
                assert forall|p: int| 0 <= p < newpairs.len()
                    implies (#[trigger] newpairs[p])
                        == (if p < i { oldpairs[p] } else if p == i { (name@, tbl@) }
                            else { oldpairs[p - 1] }) by {
                }
                lemma_map_of_insert_fresh(oldpairs, i as int, name@, tbl@);
                assert(sorted_strict(newnames)) by {
                    assert forall|p: int, q: int| 0 <= p < q < newnames.len()
                        implies lex_lt(newnames[p], newnames[q]) by {
                        assert(newnames[p] == newpairs[p].0);
                        assert(newnames[q] == newpairs[q].0);
                        if p < i && q > i {
                            assert(lex_lt(oldnames[p], name@));
                            if q - 1 > i {
                                lemma_lex_transitive(
                                    name@, oldnames[i as int], oldnames[q - 1]);
                            }
                            lemma_lex_transitive(oldnames[p], name@, oldnames[q - 1]);
                        } else if p < i && q == i {
                            assert(lex_lt(oldnames[p], name@));
                        } else if p == i && q > i {
                            if q - 1 > i {
                                lemma_lex_transitive(
                                    name@, oldnames[i as int], oldnames[q - 1]);
                            }
                        } else {
                            assert(lex_lt(oldnames[if p < i { p } else { p - 1 }],
                                oldnames[if q < i { q } else { q - 1 }]));
                        }
                    }
                }
            }
        }
    }

    /// Writes `value` under `key` in the table at registry position `i`.
    fn table_put(&mut self, i: usize, key: Vec<u8>, value: Vec<u8>)
        requires
            old(self).wf(),
            i < old(self).name_seq().len(),
        ensures
            final(self).wf(),
            final(self)@ == old(self)@.insert(old(self).name_seq()[i as int],
                old(self)@[old(self).name_seq()[i as int]].insert(key@, value@)),
    {
        let ghost oldpairs = self.reg_pairs();
        let ghost oldnames = self.name_seq();
        proof {
            self.lemma_reg_distinct();
            self.lemma_reg_at(i as int);
        }
        let ghost oldtables = self.tables@;
        let entry = self.tables.remove(i);
        let nm = entry.0;
        let mut tbl = entry.1;
        tbl.put(key, value);
        self.tables.insert(i, (nm, tbl));
        proof {
            assert(self.tables@ =~= oldtables.update(i as int, self.tables@[i as int]));
            let newpairs = self.reg_pairs();
            assert(newpairs =~= oldpairs.update(i as int,
                (oldnames[i as int], oldpairs[i as int].1.insert(key@, value@))));
            lemma_map_of_update(oldpairs, i as int, oldpairs[i as int].1.insert(key@, value@));
            assert(oldpairs[i as int].0 == oldnames[i as int]);
            assert(self.name_seq() =~= oldnames);
        }
    }

    /// Opens (creating if absent) a table and registers it.
    pub fn use_table(&mut self, table: Vec<u8>) -> (r: Result<Reply, DaemonError>)
        requires
            old(self).wf(),
            table@.len() <= MAX_NAME_SIZE,
        ensures
            final(self).wf(),
            final(self)@ == apply(old(self)@, ReqModel::Use { table: table@ }).0,
            rep_of_result(&r) == apply(old(self)@, ReqModel::Use { table: table@ }).1,
            r is Ok,
            match r {
                Ok(rep) => rep.wf(),
                Err(_) => true,
            },
    {
        let (i, found) = self.position(&table);
        if found {
            Ok(Reply::Success)
        } else {
            self.set_table(i, false, table, Table::new());
            Ok(Reply::Success)
        }
    }

    /// The set of currently open table names.
    pub fn list_tables(&self) -> (r: Result<Reply, DaemonError>)
        requires
            self.wf(),
        ensures
            rep_of_result(&r) == apply(self@, ReqModel::Tables).1,
            r is Ok,
            match r {
                Ok(rep) => rep.ordered(),
                Err(_) => true,
            },
    {
        let mut ns = NameSet::new();
        let n = self.tables.len();
        proof {
            assert(self.name_seq().len() == n);
            assert(ns@ =~= self.name_seq().take(0));
        }
        let mut k: usize = 0;
        while k < n
            invariant
                0 <= k <= n,
                n == self.name_seq().len(),
                self.wf(),
                ns.wf(),
                ns@ == self.name_seq().take(k as int),
            decreases n - k,
        {
            proof {
                assert(self.reg_pairs()[k as int].0 == self.name_seq()[k as int]);
                if k > 0 {
                    assert(ns@.last() == self.name_seq()[k - 1]);
                }
            }
            ns.push_max(clone_bytes(&self.tables[k].0));
            proof {
                assert(ns@ =~= self.name_seq().take(k + 1));
            }
            k = k + 1;
        }
        proof {
            assert(self.name_seq().take(n as int) =~= self.name_seq());
            self.lemma_reg_dom();
        }
        Ok(Reply::Tables(ns))
    }

    /// The entry count of a table.
    pub fn count(&self, table: Vec<u8>) -> (r: Result<Reply, DaemonError>)
        requires
            self.wf(),
        ensures
            rep_of_result(&r) == apply(self@, ReqModel::Count { table: table@ }).1,
            match r {
                Ok(rep) => rep.wf(),
                Err(_) => true,
            },
    {
        let (i, found) = self.position(&table);
        if !found {
            return Err(DaemonError::UnknownTable(table));
        }
        proof {
            self.lemma_reg_at(i as int);
            assert(self.reg_pairs()[i as int].1 == self.tables@[i as int].1@);
        }
        let c = self.tables[i].1.count_entries();
        Ok(Reply::Count(c as u64))
    }

    /// Stores a chunk under a caller-chosen key and replies with the
    /// chunk's content address, which does not depend on that key.
    pub fn store(&mut self, table: Vec<u8>, key: PrimaryKey, chunk: Chunk)
        -> (r: Result<Reply, DaemonError>)
        requires
            old(self).wf(),
            key.wf(),
            chunk.wf(),
        ensures
            final(self).wf(),
            final(self)@ == apply(old(self)@,
                ReqModel::Store { table: table@, key: key@, chunk: chunk@ }).0,
            rep_of_result(&r) == apply(old(self)@,
                ReqModel::Store { table: table@, key: key@, chunk: chunk@ }).1,
            r is Ok <==> old(self)@.contains_key(table@),
            match r {
                Ok(rep) => rep.wf(),
                Err(_) => true,
            },
    {
        let (i, found) = self.position(&table);
        if !found {
            return Err(DaemonError::UnknownTable(table));
        }
        let id = content_address(&chunk);
        self.table_put(i, key.to_vec(), chunk.into_bytes());
        Ok(Reply::ChunkId(id))
    }

    /// Byte-exact read of the last value stored under a key, or a
    /// key-absent reply.
    pub fn retrieve(&self, table: Vec<u8>, key: PrimaryKey) -> (r: Result<Reply, DaemonError>)
        requires
            self.wf(),
            key.wf(),
        ensures
            rep_of_result(&r) == apply(self@,
                ReqModel::Retrieve { table: table@, key: key@ }).1,
            match r {
                Ok(rep) => rep.wf(),
                Err(_) => true,
            },
    {
        let (i, found) = self.position(&table);
        if !found {
            return Err(DaemonError::UnknownTable(table));
        }
        proof {
            self.lemma_reg_at(i as int);
            assert(self.reg_pairs()[i as int].1 == self.tables@[i as int].1@);
        }
        match self.tables[i].1.get(key.as_bytes()) {
            None => Ok(Reply::KeyAbsent(key)),
            Some(v) => {
                if v.len() <= MAX_CHUNK_SIZE {
                    Ok(Reply::Chunk(Chunk::from_checked(clone_bytes(v))))
                } else {
                    Err(DaemonError::Encoding)
                }
            },
        }
    }

    /// Read-modify-write set merge: the 32-byte item joins the set stored
    /// under the key; inserting a member again changes nothing.
    pub fn insert(&mut self, table: Vec<u8>, key: PrimaryKey, item: ChunkId)
        -> (r: Result<Reply, DaemonError>)
        requires
            old(self).wf(),
            key.wf(),
            item.wf(),
        ensures
            final(self).wf(),
            final(self)@ == apply(old(self)@,
                ReqModel::Insert { table: table@, key: key@, item: item@ }).0,
            rep_of_result(&r) == apply(old(self)@,
                ReqModel::Insert { table: table@, key: key@, item: item@ }).1,
            r is Ok <==> apply(old(self)@,
                ReqModel::Insert { table: table@, key: key@, item: item@ }).1 is Success,
            match r {
                Ok(rep) => rep.wf(),
                Err(_) => true,
            },
    {
        let (i, found) = self.position(&table);
        if !found {
            return Err(DaemonError::UnknownTable(table));
        }
        proof {
            self.lemma_reg_at(i as int);
            assert(self.reg_pairs()[i as int].1 == self.tables@[i as int].1@);
        }
        let mut set = match self.tables[i].1.get(key.as_bytes()) {
            None => IdSet::new(),
            Some(v) => {
                if v.len() == 0 {
                    IdSet::new()
                } else {
                    match parse_id_set(v) {
                        Some(s) => s,
                        None => {
                            return Err(DaemonError::Encoding);
                        },
                    }
                }
            },
        };
        let ghost base = set.to_set();
        set.insert(item);
        proof {
            lemma_sorted_to_set_len(set@);
        }
        if set.len() > MAX_SET_ITEMS {
            return Err(DaemonError::Encoding);
        }
        let bytes = serialize_id_set(&set);
        proof {
            lemma_sorted_seq_of(set@);
        }
        self.table_put(i, key.to_vec(), bytes);
        Ok(Reply::Success)
    }

    /// Every key of the table, read as a chunk identifier, in one set.  A
    /// key that is not a 32-byte identifier fails the whole request.
    pub fn list_ids(&self, table: Vec<u8>) -> (r: Result<Reply, DaemonError>)
        requires
            self.wf(),
        ensures
            rep_of_result(&r) == apply(self@, ReqModel::ListIds { table: table@ }).1,
            match r {
                Ok(rep) => rep.ordered(),
                Err(_) => true,
            },
    {
        let (i, found) = self.position(&table);
        if !found {
            return Err(DaemonError::UnknownTable(table));
        }
        proof {
            self.lemma_reg_at(i as int);
            assert(self.reg_pairs()[i as int].1 == self.tables@[i as int].1@);
        }
        let tbl = &self.tables[i].1;
        let n = tbl.count_entries();
        let mut ids = IdSet::new();
        proof {
            assert(ids@ =~= tbl.key_seq().take(0));
        }
        let mut j: usize = 0;
        while j < n
            invariant
                0 <= j <= n,
                n == tbl.key_seq().len(),
                tbl.wf(),
                ids.wf(),
                self@.contains_key(table@),
                self@[table@] == tbl@,
                ids@ == tbl.key_seq().take(j as int),
                forall|p: int| 0 <= p < j ==> (#[trigger] tbl.key_seq()[p]).len() == ID_SIZE,
            decreases n - j,
        {
            let kb = tbl.key_at(j);
            if kb.len() != ID_SIZE {
                proof {
                    tbl.lemma_dom();
                    assert(tbl@.contains_key(tbl.key_seq()[j as int]));
                }
                return Err(DaemonError::Encoding);
            }
            proof {
                if j > 0 {
                    assert(ids@.last() == tbl.key_seq()[j - 1]);
                }
            }
            ids.push_max(ChunkId::from_checked(clone_bytes(kb)));
            proof {
                assert(ids@ =~= tbl.key_seq().take(j + 1));
            }
            j = j + 1;
        }
        proof {
            assert(tbl.key_seq().take(n as int) =~= tbl.key_seq());
            tbl.lemma_dom();
            assert(all_keys_are_ids(tbl@)) by {
                assert forall|k: Seq<u8>| tbl@.contains_key(k)
                    implies k.len() == ID_SIZE by {
                    let p = choose|p: int|
                        0 <= p < tbl.key_seq().len() && #[trigger] tbl.key_seq()[p] == k;
                    assert(tbl.key_seq()[p].len() == ID_SIZE);
                }
            }
        }
        Ok(Reply::Ids(ids))
    }

    /// The subset of the candidate ids that are not keys of the table: a
    /// set difference against the stored keys.
    pub fn filter_ids(&self, table: Vec<u8>, ids: IdSet) -> (r: Result<Reply, DaemonError>)
        requires
            self.wf(),
            ids.wf(),
        ensures
            rep_of_result(&r) == apply(self@,
                ReqModel::CheckUnknown { table: table@, ids: ids.to_set() }).1,
            match r {
                Ok(rep) => rep.ordered(),
                Err(_) => true,
            },
    {
        let (i, found) = self.position(&table);
        if !found {
            return Err(DaemonError::UnknownTable(table));
        }
        proof {
            self.lemma_reg_at(i as int);
            assert(self.reg_pairs()[i as int].1 == self.tables@[i as int].1@);
        }
        let ghost orig = ids.to_set();
        let tbl = &self.tables[i].1;
        let n = tbl.count_entries();
        let mut remaining = ids;
        proof {
            assert(tbl.key_seq().take(0).to_set() =~= Set::<Seq<u8>>::empty());
            assert(remaining.to_set() =~= orig.difference(tbl.key_seq().take(0).to_set()));
        }
        let mut j: usize = 0;
        while j < n
            invariant
                0 <= j <= n,
                n == tbl.key_seq().len(),
                tbl.wf(),
                remaining.wf(),
                self@.contains_key(table@),
                self@[table@] == tbl@,
                remaining.to_set() == orig.difference(tbl.key_seq().take(j as int).to_set()),
                forall|p: int| 0 <= p < j ==> (#[trigger] tbl.key_seq()[p]).len() == ID_SIZE,
            decreases n - j,
        {
            let kb = tbl.key_at(j);
            if kb.len() != ID_SIZE {
                proof {
                    tbl.lemma_dom();
                    assert(tbl@.contains_key(tbl.key_seq()[j as int]));
                }
                return Err(DaemonError::Encoding);
            }
            let id = ChunkId::from_checked(clone_bytes(kb));
            remaining.remove(&id);
            proof {
                assert(tbl.key_seq().take(j + 1).to_set()
                    =~= tbl.key_seq().take(j as int).to_set().insert(
                        tbl.key_seq()[j as int])) by {
                    assert(tbl.key_seq().take(j + 1)
                        =~= tbl.key_seq().take(j as int).push(tbl.key_seq()[j as int]));
                    crate::order::lemma_sorted_to_set_len(tbl.key_seq().take(j + 1));
                    assert forall|x: Seq<u8>| tbl.key_seq().take(j + 1).to_set().contains(x)
                        implies tbl.key_seq().take(j as int).to_set().insert(
                            tbl.key_seq()[j as int]).contains(x) by {
                        let p = choose|p: int| 0 <= p < j + 1
                            && #[trigger] tbl.key_seq().take(j + 1)[p] == x;
                        if p < j {
                            assert(tbl.key_seq().take(j as int)[p] == x);
                        }
                    }
                    assert forall|x: Seq<u8>| tbl.key_seq().take(j as int).to_set().insert(
                        tbl.key_seq()[j as int]).contains(x)
                        implies tbl.key_seq().take(j + 1).to_set().contains(x) by {
                        if x == tbl.key_seq()[j as int] {
                            assert(tbl.key_seq().take(j + 1)[j as int] == x);
                        } else {
                            let p = choose|p: int| 0 <= p < j
                                && #[trigger] tbl.key_seq().take(j as int)[p] == x;
                            assert(tbl.key_seq().take(j + 1)[p] == x);
                        }
                    }
                }
                assert(remaining.to_set()
                    =~= orig.difference(tbl.key_seq().take(j + 1).to_set()));
            }
            j = j + 1;
        }
        proof {
            assert(tbl.key_seq().take(n as int) =~= tbl.key_seq());
            tbl.lemma_dom();
            assert(all_keys_are_ids(tbl@)) by {
                assert forall|k: Seq<u8>| tbl@.contains_key(k)
                    implies k.len() == ID_SIZE by {
                    let p = choose|p: int|
                        0 <= p < tbl.key_seq().len() && #[trigger] tbl.key_seq()[p] == k;
                    assert(tbl.key_seq()[p].len() == ID_SIZE);
                }
            }
        }
        Ok(Reply::Ids(remaining))
    }

    /// Injects a table with given contents, as the embedding process does
    /// at startup when it loads the configured tables from disk.
    pub fn install_table(&mut self, name: Vec<u8>, entries: Vec<(Vec<u8>, Vec<u8>)>)
        requires
            old(self).wf(),
            name@.len() <= MAX_NAME_SIZE,
        ensures
            final(self).wf(),
            final(self)@ == old(self)@.insert(name@,
                map_of(entries@.map_values(|e: (Vec<u8>, Vec<u8>)| (e.0@, e.1@)))),
    {
        let ghost pairs = entries@.map_values(|e: (Vec<u8>, Vec<u8>)| (e.0@, e.1@));
        let mut tbl = Table::new();
        let n = entries.len();
        proof {
            assert(pairs.take(0) =~= Seq::<(Seq<u8>, Seq<u8>)>::empty());
            assert(tbl@ =~= map_of(pairs.take(0)));
        }
        let mut j: usize = 0;
        while j < n
            invariant
                0 <= j <= n,
                n == pairs.len(),
                pairs == entries@.map_values(|e: (Vec<u8>, Vec<u8>)| (e.0@, e.1@)),
                tbl.wf(),
                tbl@ == map_of(pairs.take(j as int)),
            decreases n - j,
        {
            tbl.put(clone_bytes(&entries[j].0), clone_bytes(&entries[j].1));
            proof {
                assert(pairs.take(j + 1).drop_last() =~= pairs.take(j as int));
                assert(pairs.take(j + 1).last() == pairs[j as int]);
                assert(map_of(pairs.take(j + 1))
                    == map_of(pairs.take(j as int)).insert(pairs[j as int].0,
                        pairs[j as int].1));
            }
            j = j + 1;
        }
        proof {
            assert(pairs.take(n as int) =~= pairs);
        }
        let (i, found) = self.position(&name);
        self.set_table(i, found, name, tbl);
    }

    /// The bytes stored under a key, detached.
    fn stored_value(&self, table: &Vec<u8>, key: &Vec<u8>) -> (r: Option<Vec<u8>>)
        requires
            self.wf(),
        ensures
            match r {
                Some(v) => self@.contains_key(table@) && self@[table@].contains_key(key@)
                    && v@ == self@[table@][key@],
                None => !self@.contains_key(table@) || !self@[table@].contains_key(key@),
            },
    {
        let (i, found) = self.position(table);
        if !found {
            return None;
        }
        proof {
            self.lemma_reg_at(i as int);
            assert(self.reg_pairs()[i as int].1 == self.tables@[i as int].1@);
        }
        match self.tables[i].1.get(key) {
            Some(v) => Some(clone_bytes(v)),
            None => None,
        }
    }

    /// The reply a handler result is sent as.
    fn reply_of(res: Result<Reply, DaemonError>) -> (r: Reply)
        ensures
            r@ == rep_of_result(&res),
            (match res {
                Ok(rep) => rep.ordered(),
                Err(_) => true,
            }) ==> r.ordered(),
    {
        match res {
            Ok(rep) => rep,
            Err(e) => Reply::from_error(e),
        }
    }

    /// One full dispatcher cycle on one inbound message: decode, route to
    /// the one handler, and return the one reply, together with the
    /// durability action to perform before the reply is sent.  A message
    /// that does not decode changes nothing and is answered with a
    /// presentation failure; no inbound message aborts the daemon.
    pub fn rpc_process(&mut self, raw: &Vec<u8>) -> (r: (Reply, Option<Action>))
        requires
            old(self).wf(),
        ensures
            final(self).wf(),
            r.0.ordered(),
            final(self)@ == apply_bytes(old(self)@, raw@).0,
            r.0@ == apply_bytes(old(self)@, raw@).1,
            opt_act_view(&r.1) == act_bytes(old(self)@, raw@),
    {
        match decode_request(raw) {
            None => (
                Reply::Failure(Failure { code: FailureCode::Presentation, info: Vec::new() }),
                None,
            ),
            Some(req) => match req {
                Request::Use(t) => {
                    let act = Action::Open(clone_bytes(&t));
                    let res = self.use_table(t);
                    (Self::reply_of(res), Some(act))
                },
                Request::Tables => {
                    let res = self.list_tables();
                    (Self::reply_of(res), None)
                },
                Request::Count(t) => {
                    let res = self.count(t);
                    (Self::reply_of(res), None)
                },
                Request::Store(sr) => {
                    let act_table = clone_bytes(&sr.table);
                    let act_key = sr.key.to_vec();
                    let act_value = clone_bytes(sr.chunk.as_bytes());
                    let res = self.store(sr.table, sr.key, sr.chunk);
                    match res {
                        Ok(rep) => (
                            rep,
                            Some(Action::Put {
                                table: act_table,
                                key: act_key,
                                value: act_value,
                            }),
                        ),
                        Err(e) => (Reply::from_error(e), None),
                    }
                },
                Request::Retrieve(rr) => {
                    let res = self.retrieve(rr.table, rr.key);
                    (Self::reply_of(res), None)
                },
                Request::Insert(ir) => {
                    let act_table = clone_bytes(&ir.table);
                    let act_key = ir.key.to_vec();
                    let res = self.insert(ir.table, ir.key, ir.item);
                    match res {
                        Ok(rep) => {
                            match self.stored_value(&act_table, &act_key) {
                                Some(value) => (
                                    rep,
                                    Some(Action::Put {
                                        table: act_table,
                                        key: act_key,
                                        value,
                                    }),
                                ),
                                None => {
                                    proof {
                                        assert(false);
                                    }
                                    (rep, None)
                                },
                            }
                        },
                        Err(e) => (Reply::from_error(e), None),
                    }
                },
                Request::ListIds(t) => {
                    let res = self.list_ids(t);
                    (Self::reply_of(res), None)
                },
                Request::CheckUnknown(cr) => {
                    let res = self.filter_ids(cr.table, cr.ids);
                    (Self::reply_of(res), None)
                },
            },
        }
    }
}

} // verus!

//! End-to-end behavior of the request runtime.

use stored::chunk::{Chunk, ChunkId, PrimaryKey};
use stored::error::FailureCode;
use stored::idset::IdSet;
use stored::reply::Reply;
use stored::service::{Action, Runtime};

fn key(byte: u8) -> PrimaryKey {
    let mut bytes = vec![0u8; 32];
    bytes[31] = byte;
    PrimaryKey::from_bytes(bytes).expect("32 bytes")
}

fn id(byte: u8) -> ChunkId {
    let mut bytes = vec![0u8; 32];
    bytes[31] = byte;
    ChunkId::from_bytes(bytes).expect("32 bytes")
}

fn chunk(data: &[u8]) -> Chunk {
    Chunk::from_bytes(data.to_vec()).expect("small chunk")
}

fn opened(tables: &[&[u8]]) -> Runtime {
    let mut rt = Runtime::new();
    for t in tables {
        let reply = rt.use_table(t.to_vec()).expect("use never fails");
        assert!(matches!(reply, Reply::Success));
    }
    rt
}

#[test]
fn scenario_store_then_retrieve() {
    let mut rt = opened(&[&b"files"[..]]);
    let stored_reply = rt
        .store(b"files".to_vec(), key(0x01), chunk(&[0xAA, 0xBB]))
        .expect("table is open");
    let expected = storm::Chunk::try_from(&[0xAAu8, 0xBB][..])
        .expect("two bytes fit a chunk")
        .chunk_id();
    match stored_reply {
        Reply::ChunkId(got) => assert_eq!(&got.as_bytes()[..], &expected[..]),
        _ => panic!("store must reply with the content address"),
    }
    let retrieved = rt
        .retrieve(b"files".to_vec(), key(0x01))
        .expect("table is open");
    match retrieved {
        Reply::Chunk(c) => assert_eq!(c.as_bytes(), &vec![0xAA, 0xBB]),
        _ => panic!("retrieve must return the stored chunk"),
    }
}

#[test]
fn scenario_retrieve_never_stored() {
    let rt = opened(&[&b"files"[..]]);
    let k = PrimaryKey::from_bytes(vec![0xFF; 32]).expect("32 bytes");
    let reply = rt.retrieve(b"files".to_vec(), k).expect("table is open");
    match reply {
        Reply::KeyAbsent(k) => assert_eq!(k.as_bytes(), &vec![0xFF; 32]),
        _ => panic!("an absent key is reported absent, never an error"),
    }
}

#[test]
fn scenario_count_overwrites() {
    let mut rt = opened(&[&b"files"[..]]);
    rt.store(b"files".to_vec(), key(1), chunk(&[1])).unwrap();
    rt.store(b"files".to_vec(), key(2), chunk(&[2])).unwrap();
    match rt.count(b"files".to_vec()).unwrap() {
        Reply::Count(n) => assert_eq!(n, 2),
        _ => panic!("count replies with a count"),
    }
    // A third store reusing an existing key overwrites, it does not append.
    rt.store(b"files".to_vec(), key(2), chunk(&[3])).unwrap();
    match rt.count(b"files".to_vec()).unwrap() {
        Reply::Count(n) => assert_eq!(n, 2),
        _ => panic!("count replies with a count"),
    }
    match rt.retrieve(b"files".to_vec(), key(2)).unwrap() {
        Reply::Chunk(c) => assert_eq!(c.as_bytes(), &vec![3]),
        _ => panic!("the overwrite wins"),
    }
}

#[test]
fn content_address_same_for_same_bytes() {
    let mut rt = opened(&[&b"one"[..], &b"two"[..]]);
    let id_a = match rt.store(b"one".to_vec(), key(1), chunk(b"payload")).unwrap() {
        Reply::ChunkId(i) => i.to_vec(),
        _ => panic!("store replies with an id"),
    };
    let id_b = match rt.store(b"two".to_vec(), key(9), chunk(b"payload")).unwrap() {
        Reply::ChunkId(i) => i.to_vec(),
        _ => panic!("store replies with an id"),
    };
    assert_eq!(id_a, id_b);
    assert_eq!(id_a.len(), 32);
    // The address is a digest, not the payload itself.
    assert_ne!(&id_a[..7], b"payload");
    let id_c = match rt.store(b"one".to_vec(), key(1), chunk(b"other")).unwrap() {
        Reply::ChunkId(i) => i.to_vec(),
        _ => panic!("store replies with an id"),
    };
    assert_ne!(id_a, id_c);
}

#[test]
fn unknown_table_is_database_failure() {
    let mut rt = opened(&[&b"known"[..]]);
    let results = vec![
        rt.count(b"ghost".to_vec()),
        rt.store(b"ghost".to_vec(), key(1), chunk(&[1])),
        rt.retrieve(b"ghost".to_vec(), key(1)),
        rt.insert(b"ghost".to_vec(), key(1), id(2)),
        rt.list_ids(b"ghost".to_vec()),
        rt.filter_ids(b"ghost".to_vec(), IdSet::new()),
    ];
    for res in results {
        let err = res.err().expect("operations on an unopened table fail");
        let reply = Reply::from_error(err);
        match reply {
            Reply::Failure(f) => {
                assert!(matches!(f.code, FailureCode::Database));
                assert_eq!(f.info, b"ghost".to_vec());
            }
            _ => panic!("errors become failure replies"),
        }
    }
}

#[test]
fn use_is_idempotent_and_lists_tables() {
    let mut rt = opened(&[&b"beta"[..], &b"alpha"[..]]);
    rt.use_table(b"alpha".to_vec()).unwrap();
    match rt.list_tables().unwrap() {
        Reply::Tables(names) => {
            assert_eq!(names.len(), 2);
            // No duplicates, ascending order.
            assert_eq!(names.get(0), &b"alpha".to_vec());
            assert_eq!(names.get(1), &b"beta".to_vec());
        }
        _ => panic!("tables replies with the name set"),
    }
}

#[test]
fn insert_into_set_is_idempotent() {
    let mut rt = opened(&[&b"sets"[..]]);
    rt.insert(b"sets".to_vec(), key(7), id(0x11)).unwrap();
    let first = match rt.retrieve(b"sets".to_vec(), key(7)).unwrap() {
        Reply::Chunk(c) => c.into_bytes(),
        _ => panic!("the stored set is readable"),
    };
    rt.insert(b"sets".to_vec(), key(7), id(0x11)).unwrap();
    let second = match rt.retrieve(b"sets".to_vec(), key(7)).unwrap() {
        Reply::Chunk(c) => c.into_bytes(),
        _ => panic!("the stored set is readable"),
    };
    // The duplicate insert left the stored set unchanged: one occurrence.
    assert_eq!(first, second);
    assert_eq!(second.len(), 2 + 32);
    let set = stored::codec::parse_id_set(&second).expect("a stored set parses");
    assert_eq!(set.len(), 1);
    assert_eq!(set.get(0).as_bytes(), id(0x11).as_bytes());
}

#[test]
fn insert_merges_and_orders_items() {
    let mut rt = opened(&[&b"sets"[..]]);
    rt.insert(b"sets".to_vec(), key(7), id(0x22)).unwrap();
    rt.insert(b"sets".to_vec(), key(7), id(0x11)).unwrap();
    rt.insert(b"sets".to_vec(), key(7), id(0x33)).unwrap();
    let bytes = match rt.retrieve(b"sets".to_vec(), key(7)).unwrap() {
        Reply::Chunk(c) => c.into_bytes(),
        _ => panic!("the stored set is readable"),
    };
    let set = stored::codec::parse_id_set(&bytes).expect("a stored set parses");
    assert_eq!(set.len(), 3);
    assert_eq!(set.get(0).as_bytes(), id(0x11).as_bytes());
    assert_eq!(set.get(1).as_bytes(), id(0x22).as_bytes());
    assert_eq!(set.get(2).as_bytes(), id(0x33).as_bytes());
}

#[test]
fn list_ids_returns_all_keys_sorted() {
    let mut rt = opened(&[&b"files"[..]]);
    rt.store(b"files".to_vec(), key(9), chunk(&[9])).unwrap();
    rt.store(b"files".to_vec(), key(3), chunk(&[3])).unwrap();
    match rt.list_ids(b"files".to_vec()).unwrap() {
        Reply::Ids(ids) => {
            assert_eq!(ids.len(), 2);
            assert_eq!(ids.get(0).as_bytes(), key(3).as_bytes());
            assert_eq!(ids.get(1).as_bytes(), key(9).as_bytes());
        }
        _ => panic!("list replies with ids"),
    }
}

#[test]
fn list_ids_rejects_foreign_keys() {
    let mut rt = Runtime::new();
    // A table loaded from disk may hold keys other software wrote.
    rt.install_table(b"odd".to_vec(), vec![(vec![1, 2, 3], vec![9])]);
    let err = rt.list_ids(b"odd".to_vec()).err().expect("short key fails the scan");
    match Reply::from_error(err) {
        Reply::Failure(f) => assert!(matches!(f.code, FailureCode::Encoding)),
        _ => panic!("errors become failure replies"),
    }
}

#[test]
fn filter_unknown_is_set_difference() {
    let mut rt = opened(&[&b"files"[..]]);
    rt.store(b"files".to_vec(), key(1), chunk(&[1])).unwrap();
    rt.store(b"files".to_vec(), key(2), chunk(&[2])).unwrap();
    let mut cand = IdSet::new();
    cand.insert(id(1));
    cand.insert(id(3));
    let remaining = match rt.filter_ids(b"files".to_vec(), cand).unwrap() {
        Reply::Ids(ids) => ids,
        _ => panic!("filter replies with ids"),
    };
    assert_eq!(remaining.len(), 1);
    assert_eq!(remaining.get(0).as_bytes(), id(3).as_bytes());
    // Running it again with no intervening store gives the same answer.
    let mut cand2 = IdSet::new();
    cand2.insert(id(1));
    cand2.insert(id(3));
    let again = match rt.filter_ids(b"files".to_vec(), cand2).unwrap() {
        Reply::Ids(ids) => ids,
        _ => panic!("filter replies with ids"),
    };
    assert_eq!(again.len(), 1);
    assert_eq!(again.get(0).as_bytes(), id(3).as_bytes());
}

#[test]
fn dispatcher_replies_in_request_order() {
    let mut rt = Runtime::new();
    let r1 = stored::codec::encode_request(&stored::request::Request::Use(b"files".to_vec()));
    let r2 = stored::codec::encode_request(&stored::request::Request::Store(
        stored::request::StoreReq {
            table: b"files".to_vec(),
            key: key(1),
            chunk: chunk(&[0xAA, 0xBB]),
        },
    ));
    let r3 = stored::codec::encode_request(&stored::request::Request::Count(b"files".to_vec()));
    let (rep1, act1) = rt.rpc_process(&r1);
    let (rep2, act2) = rt.rpc_process(&r2);
    let (rep3, act3) = rt.rpc_process(&r3);
    assert!(matches!(rep1, Reply::Success));
    assert!(matches!(rep2, Reply::ChunkId(_)));
    match rep3 {
        Reply::Count(n) => assert_eq!(n, 1),
        _ => panic!("the third reply answers the third request"),
    }
    assert!(matches!(act1, Some(Action::Open(_))));
    match act2 {
        Some(Action::Put { table, key: k, value }) => {
            assert_eq!(table, b"files".to_vec());
            assert_eq!(k, key(1).to_vec());
            assert_eq!(value, vec![0xAA, 0xBB]);
        }
        _ => panic!("a store calls for a durable write before the reply"),
    }
    assert!(act3.is_none());
}

#[test]
fn dispatcher_answers_garbage_with_presentation_failure() {
    let mut rt = Runtime::new();
    let (rep, act) = rt.rpc_process(&vec![0xDE, 0xAD, 0xBE, 0xEF]);
    match rep {
        Reply::Failure(f) => assert!(matches!(f.code, FailureCode::Presentation)),
        _ => panic!("garbage still gets exactly one reply"),
    }
    assert!(act.is_none());
    // The daemon keeps serving afterwards.
    let (rep2, _) = rt.rpc_process(&stored::codec::encode_request(
        &stored::request::Request::Use(b"files".to_vec()),
    ));
    assert!(matches!(rep2, Reply::Success));
}

#[test]
fn insert_action_carries_merged_set() {
    let mut rt = opened(&[&b"sets"[..]]);
    let req = stored::codec::encode_request(&stored::request::Request::Insert(
        stored::request::InsertReq {
            table: b"sets".to_vec(),
            key: key(7),
            item: id(0x11),
        },
    ));
    let (rep, act) = rt.rpc_process(&req);
    assert!(matches!(rep, Reply::Success));
    match act {
        Some(Action::Put { table, key: k, value }) => {
            assert_eq!(table, b"sets".to_vec());
            assert_eq!(k, key(7).to_vec());
            let set = stored::codec::parse_id_set(&value).expect("a stored set parses");
            assert_eq!(set.len(), 1);
        }
        _ => panic!("a set insert calls for a durable write"),
    }
}

#[test]
fn content_addressed_store_path() {
    let mut rt = opened(&[&b"cas"[..]]);
    // First learn the content address, then key the chunk by it, as the
    // content-addressed call paths do.
    let addr = match rt.store(b"cas".to_vec(), key(0), chunk(b"blob")).unwrap() {
        Reply::ChunkId(i) => i,
        _ => panic!("store replies with an id"),
    };
    let k = PrimaryKey::from_chunk_id(&addr);
    rt.store(b"cas".to_vec(), k, chunk(b"blob")).unwrap();
    let k2 = PrimaryKey::from_chunk_id(&addr);
    match rt.retrieve(b"cas".to_vec(), k2).unwrap() {
        Reply::Chunk(c) => assert_eq!(c.as_bytes(), &b"blob".to_vec()),
        _ => panic!("the chunk is found under its own address"),
    }
}

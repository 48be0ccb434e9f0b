//! The wire codec: exact byte layouts, round trips, and what the decoder
//! refuses.

use stored::chunk::{Chunk, ChunkId, PrimaryKey};
use stored::codec::{decode_reply, decode_request, encode_reply, encode_request};
use stored::error::FailureCode;
use stored::idset::IdSet;
use stored::nameset::NameSet;
use stored::reply::{Failure, Reply};
use stored::request::{CheckUnknownReq, InsertReq, Request, RetrieveReq, StoreReq};

fn key(byte: u8) -> PrimaryKey {
    let mut bytes = vec![0u8; 32];
    bytes[31] = byte;
    PrimaryKey::from_bytes(bytes).expect("32 bytes")
}

fn id(byte: u8) -> ChunkId {
    let mut bytes = vec![0u8; 32];
    bytes[31] = byte;
    ChunkId::from_bytes(bytes).expect("32 bytes")
}

#[test]
fn use_request_exact_bytes() {
    let bytes = encode_request(&Request::Use(b"files".to_vec()));
    let mut expected = vec![0xa0, 0x00, 0x05, 0x00];
    expected.extend_from_slice(b"files");
    assert_eq!(bytes, expected);
}

#[test]
fn tables_request_exact_bytes() {
    assert_eq!(encode_request(&Request::Tables), vec![0xa1, 0x00]);
}

#[test]
fn store_request_exact_bytes() {
    let bytes = encode_request(&Request::Store(StoreReq {
        table: b"db".to_vec(),
        key: key(0x01),
        chunk: Chunk::from_bytes(vec![0xAA, 0xBB]).unwrap(),
    }));
    let mut expected = vec![0x10, 0x00, 0x02, 0x00, b'd', b'b'];
    expected.extend_from_slice(&[0u8; 31]);
    expected.push(0x01);
    expected.extend_from_slice(&[0x02, 0x00, 0x00, 0xAA, 0xBB]);
    assert_eq!(bytes, expected);
}

#[test]
fn request_round_trips() {
    let mut ids = IdSet::new();
    ids.insert(id(2));
    ids.insert(id(1));
    let reqs = vec![
        Request::Use(b"files".to_vec()),
        Request::Tables,
        Request::Count(b"files".to_vec()),
        Request::Store(StoreReq {
            table: b"files".to_vec(),
            key: key(5),
            chunk: Chunk::from_bytes(b"data".to_vec()).unwrap(),
        }),
        Request::Retrieve(RetrieveReq { table: b"files".to_vec(), key: key(5) }),
        Request::Insert(InsertReq {
            table: b"files".to_vec(),
            key: key(5),
            item: id(7),
        }),
        Request::ListIds(b"files".to_vec()),
        Request::CheckUnknown(CheckUnknownReq { table: b"files".to_vec(), ids }),
    ];
    for req in reqs {
        let bytes = encode_request(&req);
        let back = decode_request(&bytes).expect("an encoded request decodes");
        assert_eq!(encode_request(&back), bytes);
    }
}

#[test]
fn reply_round_trips() {
    let mut ids = IdSet::new();
    ids.insert(id(9));
    ids.insert(id(4));
    let mut names = NameSet::new();
    names.push_max(b"alpha".to_vec());
    names.push_max(b"beta".to_vec());
    let reps = vec![
        Reply::Success,
        Reply::Failure(Failure { code: FailureCode::Database, info: b"oops".to_vec() }),
        Reply::Tables(names),
        Reply::Count(123456789),
        Reply::ChunkId(id(3)),
        Reply::Chunk(Chunk::from_bytes(vec![1, 2, 3]).unwrap()),
        Reply::Ids(ids),
        Reply::KeyAbsent(key(8)),
    ];
    for rep in reps {
        let bytes = encode_reply(&rep).expect("a small reply encodes");
        let back = decode_reply(&bytes).expect("an encoded reply decodes");
        assert_eq!(encode_reply(&back).unwrap(), bytes);
    }
}

#[test]
fn success_and_count_exact_bytes() {
    assert_eq!(encode_reply(&Reply::Success).unwrap(), vec![0x01, 0x00]);
    assert_eq!(
        encode_reply(&Reply::Count(2)).unwrap(),
        vec![0xa3, 0x00, 0x02, 0x00, 0x00, 0x00, 0x00, 0x00, 0x00, 0x00],
    );
}

#[test]
fn failure_exact_bytes() {
    let bytes = encode_reply(&Reply::Failure(Failure {
        code: FailureCode::Encoding,
        info: b"xy".to_vec(),
    }))
    .unwrap();
    assert_eq!(bytes, vec![0x00, 0x00, 0x02, 0x00, 0x02, 0x00, b'x', b'y']);
    let unknown = encode_reply(&Reply::Failure(Failure {
        code: FailureCode::Unknown,
        info: vec![],
    }))
    .unwrap();
    assert_eq!(unknown, vec![0x00, 0x00, 0xff, 0x0f, 0x00, 0x00]);
}

#[test]
fn decoder_rejects_bad_wire_forms() {
    // Unknown tag.
    assert!(decode_request(&vec![0x99, 0x99]).is_none());
    // Truncated payload.
    assert!(decode_request(&vec![0xa0, 0x00, 0x05, 0x00, b'f']).is_none());
    // Trailing byte after a complete message.
    let mut bytes = encode_request(&Request::Tables);
    bytes.push(0);
    assert!(decode_request(&bytes).is_none());
    // Too short for a tag.
    assert!(decode_request(&vec![0xa0]).is_none());
    assert!(decode_request(&Vec::new()).is_none());
}

#[test]
fn decoder_rejects_unsorted_id_sets() {
    let mut ids = IdSet::new();
    ids.insert(id(1));
    ids.insert(id(2));
    let good = encode_request(&Request::CheckUnknown(CheckUnknownReq {
        table: b"t".to_vec(),
        ids,
    }));
    assert!(decode_request(&good).is_some());
    // Swap the two 32-byte ids: same multiset, wrong order.
    let mut bad = good.clone();
    let items_at = good.len() - 64;
    bad[items_at + 31] = 2;
    bad[items_at + 63] = 1;
    assert!(decode_request(&bad).is_none());
    // Repeat one id: a set never repeats an element.
    let mut dup = good.clone();
    dup[items_at + 63] = 1;
    assert!(decode_request(&dup).is_none());
}

#[test]
fn decoder_rejects_unknown_failure_code() {
    let bytes = vec![0x00, 0x00, 0x42, 0x42, 0x00, 0x00];
    assert!(decode_reply(&bytes).is_none());
}

#[test]
fn chunk_size_is_bounded() {
    assert!(Chunk::from_bytes(vec![0u8; 0xFFFFFF]).is_ok());
    let err = Chunk::from_bytes(vec![0u8; 0x1000000]);
    assert!(matches!(err, Err(stored::chunk::ChunkError::TooLarge)));
}

#[test]
fn primary_key_requires_32_bytes() {
    assert!(PrimaryKey::from_bytes(vec![0u8; 31]).is_none());
    assert!(PrimaryKey::from_bytes(vec![0u8; 33]).is_none());
    assert!(PrimaryKey::from_bytes(vec![0u8; 32]).is_some());
    assert!(ChunkId::from_bytes(vec![1u8; 32]).is_some());
    assert!(ChunkId::from_bytes(vec![]).is_none());
}

#[test]
fn stored_set_round_trips() {
    let mut ids = IdSet::new();
    ids.insert(id(3));
    ids.insert(id(1));
    ids.insert(id(3));
    let bytes = stored::codec::serialize_id_set(&ids);
    assert_eq!(bytes.len(), 2 + 2 * 32);
    let back = stored::codec::parse_id_set(&bytes).expect("a stored set parses");
    assert_eq!(back.len(), 2);
    assert_eq!(back.get(0).as_bytes(), id(1).as_bytes());
    assert_eq!(back.get(1).as_bytes(), id(3).as_bytes());
    // Garbage does not parse.
    assert!(stored::codec::parse_id_set(&vec![0x01]).is_none());
    assert!(stored::codec::parse_id_set(&vec![0x01, 0x00, 0xAB]).is_none());
}

#[test]
fn reply_success_or_failure_collapse() {
    assert!(Reply::Success.success_or_failure().is_ok());
    let failure = Reply::Failure(Failure { code: FailureCode::Database, info: vec![] });
    match failure.success_or_failure() {
        Err(stored::reply::ServerFault::Failure(f)) => {
            assert!(matches!(f.code, FailureCode::Database));
        }
        _ => panic!("a failure reply collapses to its failure"),
    }
    match Reply::Count(1).success_or_failure() {
        Err(stored::reply::ServerFault::UnexpectedServerResponse) => {}
        _ => panic!("a payload reply is unexpected where success was awaited"),
    }
}

#[test]
fn scenario_full_wire_cycle() {
    let mut rt = stored::service::Runtime::new();
    let mut cycle = |rt: &mut stored::service::Runtime, req: Request| -> Reply {
        let raw = encode_request(&req);
        let (rep, _action) = rt.rpc_process(&raw);
        let bytes = encode_reply(&rep).expect("small replies encode");
        decode_reply(&bytes).expect("the daemon's bytes decode")
    };
    let rep = cycle(&mut rt, Request::Use(b"files".to_vec()));
    assert!(matches!(rep, Reply::Success));
    let rep = cycle(
        &mut rt,
        Request::Store(StoreReq {
            table: b"files".to_vec(),
            key: key(0x01),
            chunk: Chunk::from_bytes(vec![0xAA, 0xBB]).unwrap(),
        }),
    );
    let expected = storm::Chunk::try_from(&[0xAAu8, 0xBB][..]).unwrap().chunk_id();
    match rep {
        Reply::ChunkId(got) => assert_eq!(&got.as_bytes()[..], &expected[..]),
        _ => panic!("store must reply with the content address"),
    }
    let rep = cycle(
        &mut rt,
        Request::Retrieve(RetrieveReq { table: b"files".to_vec(), key: key(0x01) }),
    );
    match rep {
        Reply::Chunk(c) => assert_eq!(c.as_bytes(), &vec![0xAA, 0xBB]),
        _ => panic!("retrieve must return the stored chunk"),
    }
}

//! The wire codec.
//!
//! Every message is a two-byte little-endian type tag followed by a payload
//! whose shape the tag determines.  Variable-size fields carry explicit
//! length prefixes; ordered sets travel as a count followed by their
//! elements in strictly ascending order, so one logical message has exactly
//! one byte form, and the decoder accepts exactly the encoder's output:
//! an unknown tag, a truncated payload, trailing bytes, or an out-of-order
//! set all fail the decode.

use vstd::prelude::*;
use vstd::arithmetic::div_mod::{
    lemma_fundamental_div_mod, lemma_fundamental_div_mod_converse_div,
    lemma_fundamental_div_mod_converse_mod,
};
use crate::chunk::{Chunk, ChunkId, PrimaryKey, ID_SIZE, MAX_CHUNK_SIZE};
use crate::error::FailureCode;
use crate::order::{
    cmp_bytes, lemma_sorted_seq_of, lemma_sorted_to_set_len, set_repr_ok, sorted_seq_of,
    sorted_strict, Ordering3,
};
use crate::reply::{wf_rep, Failure, RepModel, Reply};
use crate::request::{CheckUnknownReq, InsertReq, ReqModel, Request, RetrieveReq, StoreReq};

verus! {

/// Largest table name (and failure message) the wire carries.
pub const MAX_NAME_SIZE: usize = 0xFFFF;

/// Largest failure description the wire carries.
pub const MAX_INFO_SIZE: usize = 0xFFFF;

/// Largest number of elements of a set on the wire.
pub const MAX_SET_ITEMS: usize = 0xFFFF;

// Request type tags.  Part of the wire contract: never reassigned.
pub const TAG_USE: u16 = 0x00a0;
pub const TAG_TABLES: u16 = 0x00a1;
pub const TAG_COUNT: u16 = 0x00a3;
pub const TAG_STORE: u16 = 0x0010;
pub const TAG_RETRIEVE: u16 = 0x0012;
pub const TAG_INSERT: u16 = 0x0014;
pub const TAG_LIST_IDS: u16 = 0x0016;
pub const TAG_CHECK_UNKNOWN: u16 = 0x0018;

// Reply type tags.
pub const TAG_REP_FAILURE: u16 = 0x0000;
pub const TAG_REP_SUCCESS: u16 = 0x0001;
pub const TAG_REP_CHUNK: u16 = 0x0010;
pub const TAG_REP_CHUNK_ID: u16 = 0x0011;
pub const TAG_REP_KEY_ABSENT: u16 = 0x0012;
pub const TAG_REP_IDS: u16 = 0x0013;
pub const TAG_REP_TABLES: u16 = 0x00a1;
pub const TAG_REP_COUNT: u16 = 0x00a3;

// Failure codes on the wire.
pub const CODE_PRESENTATION: u16 = 0x0000;
pub const CODE_DATABASE: u16 = 0x0001;
pub const CODE_ENCODING: u16 = 0x0002;
pub const CODE_UNKNOWN: u16 = 0x0fff;

/// 256 to the power `n`: the number of values an `n`-byte field can carry.
pub open spec fn pow256(n: nat) -> nat
    decreases n,
{
    if n == 0 {
        1
    } else {
        256 * pow256((n - 1) as nat)
    }
}

pub proof fn lemma_pow256_vals()
    ensures
        pow256(0) == 1,
        pow256(1) == 0x100,
        pow256(2) == 0x1_0000,
        pow256(3) == 0x100_0000,
        pow256(7) == 0x100_0000_0000_0000,
        pow256(8) == 0x1_0000_0000_0000_0000,
{
    reveal_with_fuel(pow256, 9);
}

pub proof fn lemma_pow256_pos(n: nat)
    ensures
        pow256(n) >= 1,
    decreases n,
{
    if n > 0 {
        lemma_pow256_pos((n - 1) as nat);
    }
}

pub proof fn lemma_pow256_mono(a: nat, b: nat)
    requires
        a <= b,
    ensures
        pow256(a) <= pow256(b),
    decreases b,
{
    if a < b {
        lemma_pow256_mono(a, (b - 1) as nat);
        lemma_pow256_pos((b - 1) as nat);
    }
}

/// Little-endian encoding of `v` in `n` bytes.
pub open spec fn enc_le(v: nat, n: nat) -> Seq<u8>
    decreases n,
{
    if n == 0 {
        Seq::empty()
    } else {
        seq![(v % 256) as u8] + enc_le(v / 256, (n - 1) as nat)
    }
}

/// The value a little-endian byte string holds.
pub open spec fn le_val(s: Seq<u8>) -> nat
    decreases s.len(),
{
    if s.len() == 0 {
        0
    } else {
        (s[0] as nat) + 256 * le_val(s.skip(1))
    }
}

pub proof fn lemma_enc_le_len(v: nat, n: nat)
    ensures
        enc_le(v, n).len() == n,
    decreases n,
{
    if n > 0 {
        lemma_enc_le_len(v / 256, (n - 1) as nat);
    }
}

/// Encoding then reading gives the value back.
pub proof fn lemma_le_roundtrip(v: nat, n: nat)
    requires
        v < pow256(n),
    ensures
        le_val(enc_le(v, n)) == v,
    decreases n,
{
    if n == 0 {
        assert(v == 0);
    } else {
        let head = seq![(v % 256) as u8];
        let tail = enc_le(v / 256, (n - 1) as nat);
        assert((head + tail).skip(1) =~= tail);
        assert((head + tail)[0] == (v % 256) as u8);
        assert(v / 256 < pow256((n - 1) as nat)) by {
            lemma_fundamental_div_mod(v as int, 256);
            assert(v == 256 * (v / 256) + v % 256);
        }
        lemma_le_roundtrip(v / 256, (n - 1) as nat);
        lemma_fundamental_div_mod(v as int, 256);
    }
}

/// Reading then encoding gives the bytes back, and the value fits.
pub proof fn lemma_le_sound(s: Seq<u8>)
    ensures
        le_val(s) < pow256(s.len()),
        enc_le(le_val(s), s.len()) == s,
    decreases s.len(),
{
    if s.len() == 0 {
        assert(enc_le(0, 0) =~= s);
    } else {
        let tail = s.skip(1);
        lemma_le_sound(tail);
        let v = le_val(s);
        let k = le_val(tail);
        assert(v == s[0] + 256 * k);
        assert(v < pow256(s.len())) by {
            assert(pow256(s.len()) == 256 * pow256(tail.len()));
        }
        assert(v % 256 == s[0] && v / 256 == k) by {
            lemma_fundamental_div_mod_converse_mod(v as int, 256, k as int, s[0] as int);
            lemma_fundamental_div_mod_converse_div(v as int, 256, k as int, s[0] as int);
        }
        assert(enc_le(v, s.len()) == seq![(v % 256) as u8] + enc_le(v / 256, tail.len()));
        assert(enc_le(v, s.len()) =~= s);
    }
}

/// How a concatenation splits back apart.
pub proof fn lemma_concat_parts(a: Seq<u8>, b: Seq<u8>)
    ensures
        (a + b).len() == a.len() + b.len(),
        (a + b).take(a.len() as int) == a,
        (a + b).skip(a.len() as int) == b,
{
    assert((a + b).take(a.len() as int) =~= a);
    assert((a + b).skip(a.len() as int) =~= b);
}

/// Reads an `n`-byte little-endian unsigned integer.
pub open spec fn dec_uint(s: Seq<u8>, n: nat) -> Option<(nat, Seq<u8>)> {
    if s.len() >= n {
        Some((le_val(s.take(n as int)), s.skip(n as int)))
    } else {
        None
    }
}

pub proof fn lemma_dec_uint(v: nat, n: nat, rest: Seq<u8>)
    requires
        v < pow256(n),
    ensures
        dec_uint(enc_le(v, n) + rest, n) == Some((v, rest)),
{
    lemma_enc_le_len(v, n);
    lemma_concat_parts(enc_le(v, n), rest);
    lemma_le_roundtrip(v, n);
}

pub proof fn lemma_dec_uint_sound(s: Seq<u8>, n: nat)
    ensures
        match dec_uint(s, n) {
            Some(vr) => s == enc_le(vr.0, n) + vr.1 && vr.0 < pow256(n),
            None => true,
        },
{
    if s.len() >= n {
        let head = s.take(n as int);
        lemma_le_sound(head);
        assert(s =~= head + s.skip(n as int));
    }
}

/// A byte blob under a two-byte length prefix.
pub open spec fn enc_blob16(b: Seq<u8>) -> Seq<u8> {
    enc_le(b.len(), 2) + b
}

pub open spec fn dec_blob16(s: Seq<u8>) -> Option<(Seq<u8>, Seq<u8>)> {
    match dec_uint(s, 2) {
        Some(nr) => {
            if nr.1.len() >= nr.0 {
                Some((nr.1.take(nr.0 as int), nr.1.skip(nr.0 as int)))
            } else {
                None
            }
        },
        None => None,
    }
}

pub proof fn lemma_dec_blob16(b: Seq<u8>, rest: Seq<u8>)
    requires
        b.len() <= MAX_NAME_SIZE,
    ensures
        dec_blob16(enc_blob16(b) + rest) == Some((b, rest)),
{
    lemma_pow256_vals();
    assert(enc_blob16(b) + rest =~= enc_le(b.len(), 2) + (b + rest));
    lemma_dec_uint(b.len(), 2, b + rest);
    lemma_concat_parts(b, rest);
}

pub proof fn lemma_dec_blob16_sound(s: Seq<u8>)
    ensures
        match dec_blob16(s) {
            Some(br) => s == enc_blob16(br.0) + br.1 && br.0.len() <= MAX_NAME_SIZE,
            None => true,
        },
{
    lemma_pow256_vals();
    lemma_dec_uint_sound(s, 2);
    match dec_uint(s, 2) {
        Some(nr) => {
            let (n, r) = nr;
            if r.len() >= n {
                assert(r =~= r.take(n as int) + r.skip(n as int));
                assert(s =~= enc_le(n, 2) + (r.take(n as int) + r.skip(n as int)));
                assert(s =~= (enc_le(n, 2) + r.take(n as int)) + r.skip(n as int));
            }
        },
        None => {},
    }
}

/// A byte blob under a three-byte length prefix; chunk bodies travel so.
pub open spec fn enc_blob24(b: Seq<u8>) -> Seq<u8> {
    enc_le(b.len(), 3) + b
}

pub open spec fn dec_blob24(s: Seq<u8>) -> Option<(Seq<u8>, Seq<u8>)> {
    match dec_uint(s, 3) {
        Some(nr) => {
            if nr.1.len() >= nr.0 {
                Some((nr.1.take(nr.0 as int), nr.1.skip(nr.0 as int)))
            } else {
                None
            }
        },
        None => None,
    }
}

pub proof fn lemma_dec_blob24(b: Seq<u8>, rest: Seq<u8>)
    requires
        b.len() <= crate::chunk::MAX_CHUNK_SIZE,
    ensures
        dec_blob24(enc_blob24(b) + rest) == Some((b, rest)),
{
    lemma_pow256_vals();
    assert(enc_blob24(b) + rest =~= enc_le(b.len(), 3) + (b + rest));
    lemma_dec_uint(b.len(), 3, b + rest);
    lemma_concat_parts(b, rest);
}

pub proof fn lemma_dec_blob24_sound(s: Seq<u8>)
    ensures
        match dec_blob24(s) {
            Some(br) => s == enc_blob24(br.0) + br.1
                && br.0.len() <= crate::chunk::MAX_CHUNK_SIZE,
            None => true,
        },
{
    lemma_pow256_vals();
    lemma_dec_uint_sound(s, 3);
    match dec_uint(s, 3) {
        Some(nr) => {
            let (n, r) = nr;
            if r.len() >= n {
                assert(r =~= r.take(n as int) + r.skip(n as int));
                assert(s =~= enc_le(n, 3) + (r.take(n as int) + r.skip(n as int)));
                assert(s =~= (enc_le(n, 3) + r.take(n as int)) + r.skip(n as int));
            }
        },
        None => {},
    }
}

/// A 32-byte identifier, raw.
pub open spec fn dec_id(s: Seq<u8>) -> Option<(Seq<u8>, Seq<u8>)> {
    if s.len() >= ID_SIZE {
        Some((s.take(ID_SIZE as int), s.skip(ID_SIZE as int)))
    } else {
        None
    }
}

pub proof fn lemma_dec_id(id: Seq<u8>, rest: Seq<u8>)
    requires
        id.len() == ID_SIZE,
    ensures
        dec_id(id + rest) == Some((id, rest)),
{
    lemma_concat_parts(id, rest);
}

pub proof fn lemma_dec_id_sound(s: Seq<u8>)
    ensures
        match dec_id(s) {
            Some(br) => s == br.0 + br.1 && br.0.len() == ID_SIZE,
            None => true,
        },
{
    if s.len() >= ID_SIZE {
        assert(s =~= s.take(ID_SIZE as int) + s.skip(ID_SIZE as int));
    }
}

/// The elements of an id sequence, raw and in order.
pub open spec fn enc_ids(q: Seq<Seq<u8>>) -> Seq<u8>
    decreases q.len(),
{
    if q.len() == 0 {
        Seq::empty()
    } else {
        q[0] + enc_ids(q.skip(1))
    }
}

pub open spec fn dec_ids(s: Seq<u8>, count: nat) -> Option<(Seq<Seq<u8>>, Seq<u8>)>
    decreases count,
{
    if count == 0 {
        Some((Seq::empty(), s))
    } else {
        match dec_id(s) {
            Some(ir) => match dec_ids(ir.1, (count - 1) as nat) {
                Some(qr) => Some((seq![ir.0] + qr.0, qr.1)),
                None => None,
            },
            None => None,
        }
    }
}

pub proof fn lemma_dec_ids(q: Seq<Seq<u8>>, rest: Seq<u8>)
    requires
        forall|i: int| 0 <= i < q.len() ==> (#[trigger] q[i]).len() == ID_SIZE,
    ensures
        dec_ids(enc_ids(q) + rest, q.len()) == Some((q, rest)),
    decreases q.len(),
{
    if q.len() == 0 {
        assert(enc_ids(q) + rest =~= rest);
    } else {
        let tail = q.skip(1);
        let s = enc_ids(q) + rest;
        assert(s =~= q[0] + (enc_ids(tail) + rest));
        lemma_dec_id(q[0], enc_ids(tail) + rest);
        assert(forall|i: int| 0 <= i < tail.len() ==> (#[trigger] tail[i]).len() == ID_SIZE);
        lemma_dec_ids(tail, rest);
        assert(seq![q[0]] + tail =~= q);
    }
}

pub proof fn lemma_dec_ids_sound(s: Seq<u8>, count: nat)
    ensures
        match dec_ids(s, count) {
            Some(qr) => s == enc_ids(qr.0) + qr.1 && qr.0.len() == count
                && forall|i: int| 0 <= i < qr.0.len()
                    ==> (#[trigger] qr.0[i]).len() == ID_SIZE,
            None => true,
        },
    decreases count,
{
    if count > 0 {
        lemma_dec_id_sound(s);
        match dec_id(s) {
            Some(ir) => {
                lemma_dec_ids_sound(ir.1, (count - 1) as nat);
                match dec_ids(ir.1, (count - 1) as nat) {
                    Some(qr) => {
                        let q = seq![ir.0] + qr.0;
                        assert(q.skip(1) =~= qr.0);
                        assert(q[0] == ir.0);
                        assert(enc_ids(q) == ir.0 + enc_ids(qr.0));
                        assert(s =~= enc_ids(q) + qr.1);
                    },
                    None => {},
                }
            },
            None => {},
        }
    }
}

/// An id set on the wire: a two-byte count, then the ids ascending.  The
/// decoder refuses an out-of-order or repeated element.
pub open spec fn enc_idseq(q: Seq<Seq<u8>>) -> Seq<u8> {
    enc_le(q.len(), 2) + enc_ids(q)
}

pub open spec fn dec_idseq(s: Seq<u8>) -> Option<(Seq<Seq<u8>>, Seq<u8>)> {
    match dec_uint(s, 2) {
        Some(nr) => match dec_ids(nr.1, nr.0) {
            Some(qr) => {
                if sorted_strict(qr.0) {
                    Some(qr)
                } else {
                    None
                }
            },
            None => None,
        },
        None => None,
    }
}

pub proof fn lemma_dec_idseq(q: Seq<Seq<u8>>, rest: Seq<u8>)
    requires
        q.len() <= MAX_SET_ITEMS,
        sorted_strict(q),
        forall|i: int| 0 <= i < q.len() ==> (#[trigger] q[i]).len() == ID_SIZE,
    ensures
        dec_idseq(enc_idseq(q) + rest) == Some((q, rest)),
{
    lemma_pow256_vals();
    assert(enc_idseq(q) + rest =~= enc_le(q.len(), 2) + (enc_ids(q) + rest));
    lemma_dec_uint(q.len(), 2, enc_ids(q) + rest);
    lemma_dec_ids(q, rest);
}

pub proof fn lemma_dec_idseq_sound(s: Seq<u8>)
    ensures
        match dec_idseq(s) {
            Some(qr) => s == enc_idseq(qr.0) + qr.1 && qr.0.len() <= MAX_SET_ITEMS
                && sorted_strict(qr.0)
                && forall|i: int| 0 <= i < qr.0.len()
                    ==> (#[trigger] qr.0[i]).len() == ID_SIZE,
            None => true,
        },
{
    lemma_pow256_vals();
    lemma_dec_uint_sound(s, 2);
    match dec_uint(s, 2) {
        Some(nr) => {
            lemma_dec_ids_sound(nr.1, nr.0);
            match dec_ids(nr.1, nr.0) {
                Some(qr) => {
                    assert(s =~= (enc_le(nr.0, 2) + enc_ids(qr.0)) + qr.1);
                },
                None => {},
            }
        },
        None => {},
    }
}

/// The elements of a name sequence, each under its length prefix.
pub open spec fn enc_names(q: Seq<Seq<u8>>) -> Seq<u8>
    decreases q.len(),
{
    if q.len() == 0 {
        Seq::empty()
    } else {
        enc_blob16(q[0]) + enc_names(q.skip(1))
    }
}

pub open spec fn dec_names(s: Seq<u8>, count: nat) -> Option<(Seq<Seq<u8>>, Seq<u8>)>
    decreases count,
{
    if count == 0 {
        Some((Seq::empty(), s))
    } else {
        match dec_blob16(s) {
            Some(br) => match dec_names(br.1, (count - 1) as nat) {
                Some(qr) => Some((seq![br.0] + qr.0, qr.1)),
                None => None,
            },
            None => None,
        }
    }
}

pub proof fn lemma_dec_names(q: Seq<Seq<u8>>, rest: Seq<u8>)
    requires
        forall|i: int| 0 <= i < q.len() ==> (#[trigger] q[i]).len() <= MAX_NAME_SIZE,
    ensures
        dec_names(enc_names(q) + rest, q.len()) == Some((q, rest)),
    decreases q.len(),
{
    if q.len() == 0 {
        assert(enc_names(q) + rest =~= rest);
    } else {
        let tail = q.skip(1);
        assert(enc_names(q) + rest =~= enc_blob16(q[0]) + (enc_names(tail) + rest));
        lemma_dec_blob16(q[0], enc_names(tail) + rest);
        assert(forall|i: int| 0 <= i < tail.len()
            ==> (#[trigger] tail[i]).len() <= MAX_NAME_SIZE);
        lemma_dec_names(tail, rest);
        assert(seq![q[0]] + tail =~= q);
    }
}

pub proof fn lemma_dec_names_sound(s: Seq<u8>, count: nat)
    ensures
        match dec_names(s, count) {
            Some(qr) => s == enc_names(qr.0) + qr.1 && qr.0.len() == count
                && forall|i: int| 0 <= i < qr.0.len()
                    ==> (#[trigger] qr.0[i]).len() <= MAX_NAME_SIZE,
            None => true,
        },
    decreases count,
{
    if count > 0 {
        lemma_dec_blob16_sound(s);
        match dec_blob16(s) {
            Some(br) => {
                lemma_dec_names_sound(br.1, (count - 1) as nat);
                match dec_names(br.1, (count - 1) as nat) {
                    Some(qr) => {
                        let q = seq![br.0] + qr.0;
                        assert(q.skip(1) =~= qr.0);
                        assert(q[0] == br.0);
                        assert(enc_names(q) == enc_blob16(br.0) + enc_names(qr.0));
                        assert(s =~= (enc_blob16(br.0) + enc_names(qr.0)) + qr.1);
                    },
                    None => {},
                }
            },
            None => {},
        }
    }
}

/// A name set on the wire: a two-byte count, then the names ascending.
pub open spec fn enc_nameseq(q: Seq<Seq<u8>>) -> Seq<u8> {
    enc_le(q.len(), 2) + enc_names(q)
}

pub open spec fn dec_nameseq(s: Seq<u8>) -> Option<(Seq<Seq<u8>>, Seq<u8>)> {
    match dec_uint(s, 2) {
        Some(nr) => match dec_names(nr.1, nr.0) {
            Some(qr) => {
                if sorted_strict(qr.0) {
                    Some(qr)
                } else {
                    None
                }
            },
            None => None,
        },
        None => None,
    }
}

pub proof fn lemma_dec_nameseq(q: Seq<Seq<u8>>, rest: Seq<u8>)
    requires
        q.len() <= MAX_SET_ITEMS,
        sorted_strict(q),
        forall|i: int| 0 <= i < q.len() ==> (#[trigger] q[i]).len() <= MAX_NAME_SIZE,
    ensures
        dec_nameseq(enc_nameseq(q) + rest) == Some((q, rest)),
{
    lemma_pow256_vals();
    assert(enc_nameseq(q) + rest =~= enc_le(q.len(), 2) + (enc_names(q) + rest));
    lemma_dec_uint(q.len(), 2, enc_names(q) + rest);
    lemma_dec_names(q, rest);
}

pub proof fn lemma_dec_nameseq_sound(s: Seq<u8>)
    ensures
        match dec_nameseq(s) {
            Some(qr) => s == enc_nameseq(qr.0) + qr.1 && qr.0.len() <= MAX_SET_ITEMS
                && sorted_strict(qr.0)
                && forall|i: int| 0 <= i < qr.0.len()
                    ==> (#[trigger] qr.0[i]).len() <= MAX_NAME_SIZE,
            None => true,
        },
{
    lemma_pow256_vals();
    lemma_dec_uint_sound(s, 2);
    match dec_uint(s, 2) {
        Some(nr) => {
            lemma_dec_names_sound(nr.1, nr.0);
            match dec_names(nr.1, nr.0) {
                Some(qr) => {
                    assert(s =~= (enc_le(nr.0, 2) + enc_names(qr.0)) + qr.1);
                },
                None => {},
            }
        },
        None => {},
    }
}

/// The stored form of a set entry: the same count-prefixed ascending layout
/// the wire uses, read back whole.
pub open spec fn dec_set_value(b: Seq<u8>) -> Option<Seq<Seq<u8>>> {
    match dec_idseq(b) {
        Some(qr) => {
            if qr.1.len() == 0 {
                Some(qr.0)
            } else {
                None
            }
        },
        None => None,
    }
}

/// A stored set parses back to the elements it was written from.
pub proof fn lemma_dec_set_value(q: Seq<Seq<u8>>)
    requires
        q.len() <= MAX_SET_ITEMS,
        sorted_strict(q),
        forall|i: int| 0 <= i < q.len() ==> (#[trigger] q[i]).len() == ID_SIZE,
    ensures
        dec_set_value(enc_idseq(q)) == Some(q),
{
    lemma_dec_idseq(q, Seq::empty());
    assert(enc_idseq(q) + Seq::<u8>::empty() =~= enc_idseq(q));
}

/// Only written sets parse.
pub proof fn lemma_dec_set_value_sound(b: Seq<u8>)
    ensures
        match dec_set_value(b) {
            Some(q) => b == enc_idseq(q) && q.len() <= MAX_SET_ITEMS && sorted_strict(q)
                && forall|i: int| 0 <= i < q.len() ==> (#[trigger] q[i]).len() == ID_SIZE,
            None => true,
        },
{
    lemma_dec_idseq_sound(b);
    match dec_idseq(b) {
        Some(qr) => {
            if qr.1.len() == 0 {
                assert(qr.1 =~= Seq::<u8>::empty());
                assert(enc_idseq(qr.0) + qr.1 =~= enc_idseq(qr.0));
            }
        },
        None => {},
    }
}

/// Reads a stored set entry back into an id set.
pub fn parse_id_set(bytes: &Vec<u8>) -> (r: Option<crate::idset::IdSet>)
    ensures
        match r {
            Some(s) => s.wf() && s@.len() <= MAX_SET_ITEMS
                && dec_set_value(bytes@) == Some(s@),
            None => dec_set_value(bytes@) is None,
        },
{
    proof {
        assert(bytes@.skip(0) =~= bytes@);
    }
    match read_idseq(bytes, 0) {
        Some(sp) => {
            if sp.1 == bytes.len() {
                proof {
                    assert(bytes@.skip(sp.1 as int).len() == 0);
                }
                Some(sp.0)
            } else {
                proof {
                    assert(bytes@.skip(sp.1 as int).len() != 0);
                }
                None
            }
        },
        None => None,
    }
}

/// Writes an id set in its stored form.
pub fn serialize_id_set(ids: &crate::idset::IdSet) -> (r: Vec<u8>)
    requires
        ids.wf(),
        ids@.len() <= MAX_SET_ITEMS,
    ensures
        r@ == enc_idseq(ids@),
{
    let mut out: Vec<u8> = Vec::new();
    write_idseq(&mut out, ids);
    proof {
        assert(out@ =~= enc_idseq(ids@));
    }
    out
}

/// The wire value of a failure code.
pub open spec fn code_val(c: FailureCode) -> u16 {
    match c {
        FailureCode::Unknown => CODE_UNKNOWN,
        FailureCode::Database => CODE_DATABASE,
        FailureCode::Encoding => CODE_ENCODING,
        FailureCode::Presentation => CODE_PRESENTATION,
    }
}

/// The failure code behind a wire value; values this build does not know
/// are refused.
pub open spec fn code_of_val(v: nat) -> Option<FailureCode> {
    if v == CODE_UNKNOWN as nat {
        Some(FailureCode::Unknown)
    } else if v == CODE_DATABASE as nat {
        Some(FailureCode::Database)
    } else if v == CODE_ENCODING as nat {
        Some(FailureCode::Encoding)
    } else if v == CODE_PRESENTATION as nat {
        Some(FailureCode::Presentation)
    } else {
        None
    }
}

/// The wire tag of a request.
pub open spec fn req_tag(rm: ReqModel) -> u16 {
    match rm {
        ReqModel::Use { .. } => TAG_USE,
        ReqModel::Tables => TAG_TABLES,
        ReqModel::Count { .. } => TAG_COUNT,
        ReqModel::Store { .. } => TAG_STORE,
        ReqModel::Retrieve { .. } => TAG_RETRIEVE,
        ReqModel::Insert { .. } => TAG_INSERT,
        ReqModel::ListIds { .. } => TAG_LIST_IDS,
        ReqModel::CheckUnknown { .. } => TAG_CHECK_UNKNOWN,
    }
}

/// The payload behind a request's tag.
pub open spec fn req_payload(rm: ReqModel) -> Seq<u8> {
    match rm {
        ReqModel::Use { table } => enc_blob16(table),
        ReqModel::Tables => Seq::empty(),
        ReqModel::Count { table } => enc_blob16(table),
        ReqModel::Store { table, key, chunk } => enc_blob16(table) + (key + enc_blob24(chunk)),
        ReqModel::Retrieve { table, key } => enc_blob16(table) + key,
        ReqModel::Insert { table, key, item } => enc_blob16(table) + (key + item),
        ReqModel::ListIds { table } => enc_blob16(table),
        ReqModel::CheckUnknown { table, ids } => enc_blob16(table)
            + enc_idseq(sorted_seq_of(ids)),
    }
}

/// The one byte string a request travels as.
pub open spec fn enc_req(rm: ReqModel) -> Seq<u8> {
    enc_le(req_tag(rm) as nat, 2) + req_payload(rm)
}

/// A request's fields fit the wire shapes.
pub open spec fn req_encodable(rm: ReqModel) -> bool {
    match rm {
        ReqModel::Use { table } => table.len() <= MAX_NAME_SIZE,
        ReqModel::Tables => true,
        ReqModel::Count { table } => table.len() <= MAX_NAME_SIZE,
        ReqModel::Store { table, key, chunk } => table.len() <= MAX_NAME_SIZE
            && key.len() == ID_SIZE && chunk.len() <= MAX_CHUNK_SIZE,
        ReqModel::Retrieve { table, key } => table.len() <= MAX_NAME_SIZE
            && key.len() == ID_SIZE,
        ReqModel::Insert { table, key, item } => table.len() <= MAX_NAME_SIZE
            && key.len() == ID_SIZE && item.len() == ID_SIZE,
        ReqModel::ListIds { table } => table.len() <= MAX_NAME_SIZE,
        ReqModel::CheckUnknown { table, ids } => table.len() <= MAX_NAME_SIZE
            && ids.finite() && ids.len() <= MAX_SET_ITEMS && set_repr_ok(ids)
            && forall|x: Seq<u8>| ids.contains(x) ==> x.len() == ID_SIZE,
    }
}

/// Reads one request off the wire; exactly the encodings of well-formed
/// requests are accepted, with nothing trailing.
pub open spec fn dec_req(b: Seq<u8>) -> Option<ReqModel> {
    match dec_uint(b, 2) {
        None => None,
        Some(tr) => {
            let tag = tr.0;
            let r = tr.1;
            if tag == TAG_USE as nat {
                match dec_blob16(r) {
                    Some(br) => if br.1.len() == 0 {
                        Some(ReqModel::Use { table: br.0 })
                    } else {
                        None
                    },
                    None => None,
                }
            } else if tag == TAG_TABLES as nat {
                if r.len() == 0 {
                    Some(ReqModel::Tables)
                } else {
                    None
                }
            } else if tag == TAG_COUNT as nat {
                match dec_blob16(r) {
                    Some(br) => if br.1.len() == 0 {
                        Some(ReqModel::Count { table: br.0 })
                    } else {
                        None
                    },
                    None => None,
                }
            } else if tag == TAG_STORE as nat {
                match dec_blob16(r) {
                    Some(br) => match dec_id(br.1) {
                        Some(kr) => match dec_blob24(kr.1) {
                            Some(cr) => if cr.1.len() == 0 {
                                Some(ReqModel::Store {
                                    table: br.0,
                                    key: kr.0,
                                    chunk: cr.0,
                                })
                            } else {
                                None
                            },
                            None => None,
                        },
                        None => None,
                    },
                    None => None,
                }
            } else if tag == TAG_RETRIEVE as nat {
                match dec_blob16(r) {
                    Some(br) => match dec_id(br.1) {
                        Some(kr) => if kr.1.len() == 0 {
                            Some(ReqModel::Retrieve { table: br.0, key: kr.0 })
                        } else {
                            None
                        },
                        None => None,
                    },
                    None => None,
                }
            } else if tag == TAG_INSERT as nat {
                match dec_blob16(r) {
                    Some(br) => match dec_id(br.1) {
                        Some(kr) => match dec_id(kr.1) {
                            Some(ir) => if ir.1.len() == 0 {
                                Some(ReqModel::Insert {
                                    table: br.0,
                                    key: kr.0,
                                    item: ir.0,
                                })
                            } else {
                                None
                            },
                            None => None,
                        },
                        None => None,
                    },
                    None => None,
                }
            } else if tag == TAG_LIST_IDS as nat {
                match dec_blob16(r) {
                    Some(br) => if br.1.len() == 0 {
                        Some(ReqModel::ListIds { table: br.0 })
                    } else {
                        None
                    },
                    None => None,
                }
            } else if tag == TAG_CHECK_UNKNOWN as nat {
                match dec_blob16(r) {
                    Some(br) => match dec_idseq(br.1) {
                        Some(qr) => if qr.1.len() == 0 {
                            Some(ReqModel::CheckUnknown {
                                table: br.0,
                                ids: qr.0.to_set(),
                            })
                        } else {
                            None
                        },
                        None => None,
                    },
                    None => None,
                }
            } else {
                None
            }
        },
    }
}

/// Decoding inverts encoding: every well-formed request comes back from its
/// own bytes.
pub proof fn lemma_dec_req(rm: ReqModel)
    requires
        req_encodable(rm),
    ensures
        dec_req(enc_req(rm)) == Some(rm),
{
    lemma_pow256_vals();
    let tag = req_tag(rm) as nat;
    let p = req_payload(rm);
    lemma_dec_uint(tag, 2, p);
    match rm {
        ReqModel::Use { table } => {
            lemma_dec_blob16(table, Seq::empty());
            assert(p =~= enc_blob16(table) + Seq::<u8>::empty());
        },
        ReqModel::Tables => {},
        ReqModel::Count { table } => {
            lemma_dec_blob16(table, Seq::empty());
            assert(p =~= enc_blob16(table) + Seq::<u8>::empty());
        },
        ReqModel::Store { table, key, chunk } => {
            lemma_dec_blob16(table, key + enc_blob24(chunk));
            lemma_dec_id(key, enc_blob24(chunk));
            lemma_dec_blob24(chunk, Seq::empty());
            assert(enc_blob24(chunk) =~= enc_blob24(chunk) + Seq::<u8>::empty());
        },
        ReqModel::Retrieve { table, key } => {
            lemma_dec_blob16(table, key);
            lemma_dec_id(key, Seq::empty());
            assert(key =~= key + Seq::<u8>::empty());
        },
        ReqModel::Insert { table, key, item } => {
            lemma_dec_blob16(table, key + item);
            lemma_dec_id(key, item);
            lemma_dec_id(item, Seq::empty());
            assert(item =~= item + Seq::<u8>::empty());
        },
        ReqModel::ListIds { table } => {
            lemma_dec_blob16(table, Seq::empty());
            assert(p =~= enc_blob16(table) + Seq::<u8>::empty());
        },
        ReqModel::CheckUnknown { table, ids } => {
            let q = sorted_seq_of(ids);
            assert forall|i: int| 0 <= i < q.len()
                implies (#[trigger] q[i]).len() == ID_SIZE by {
                assert(q.to_set().contains(q[i]));
            }
            lemma_sorted_to_set_len(q);
            lemma_dec_blob16(table, enc_idseq(q));
            lemma_dec_idseq(q, Seq::empty());
            assert(enc_idseq(q) =~= enc_idseq(q) + Seq::<u8>::empty());
        },
    }
}

/// Decoding accepts nothing else: bytes that decode are the encoding of
/// what they decode to.
pub proof fn lemma_dec_req_sound(b: Seq<u8>)
    ensures
        match dec_req(b) {
            Some(rm) => b == enc_req(rm) && req_encodable(rm),
            None => true,
        },
{
    lemma_pow256_vals();
    lemma_dec_uint_sound(b, 2);
    match dec_uint(b, 2) {
        None => {},
        Some(tr) => {
            let tag = tr.0;
            let r = tr.1;
            lemma_dec_blob16_sound(r);
            if tag == TAG_TABLES as nat {
                if r.len() == 0 {
                    assert(r =~= Seq::<u8>::empty());
                    assert(b =~= enc_le(tag, 2) + r);
                }
            } else if tag == TAG_USE as nat || tag == TAG_COUNT as nat
                || tag == TAG_LIST_IDS as nat {
                match dec_blob16(r) {
                    Some(br) => {
                        if br.1.len() == 0 {
                            assert(br.1 =~= Seq::<u8>::empty());
                            assert(r =~= enc_blob16(br.0));
                        }
                    },
                    None => {},
                }
            } else if tag == TAG_STORE as nat {
                match dec_blob16(r) {
                    Some(br) => {
                        lemma_dec_id_sound(br.1);
                        match dec_id(br.1) {
                            Some(kr) => {
                                lemma_dec_blob24_sound(kr.1);
                                match dec_blob24(kr.1) {
                                    Some(cr) => {
                                        if cr.1.len() == 0 {
                                            assert(cr.1 =~= Seq::<u8>::empty());
                                            assert(kr.1 =~= enc_blob24(cr.0));
                                            assert(br.1 =~= kr.0 + enc_blob24(cr.0));
                                            assert(r =~= enc_blob16(br.0)
                                                + (kr.0 + enc_blob24(cr.0)));
                                        }
                                    },
                                    None => {},
                                }
                            },
                            None => {},
                        }
                    },
                    None => {},
                }
            } else if tag == TAG_RETRIEVE as nat {
                match dec_blob16(r) {
                    Some(br) => {
                        lemma_dec_id_sound(br.1);
                        match dec_id(br.1) {
                            Some(kr) => {
                                if kr.1.len() == 0 {
                                    assert(kr.1 =~= Seq::<u8>::empty());
                                    assert(br.1 =~= kr.0);
                                    assert(r =~= enc_blob16(br.0) + kr.0);
                                }
                            },
                            None => {},
                        }
                    },
                    None => {},
                }
            } else if tag == TAG_INSERT as nat {
                match dec_blob16(r) {
                    Some(br) => {
                        lemma_dec_id_sound(br.1);
                        match dec_id(br.1) {
                            Some(kr) => {
                                lemma_dec_id_sound(kr.1);
                                match dec_id(kr.1) {
                                    Some(ir) => {
                                        if ir.1.len() == 0 {
                                            assert(ir.1 =~= Seq::<u8>::empty());
                                            assert(kr.1 =~= ir.0);
                                            assert(br.1 =~= kr.0 + ir.0);
                                            assert(r =~= enc_blob16(br.0) + (kr.0 + ir.0));
                                        }
                                    },
                                    None => {},
                                }
                            },
                            None => {},
                        }
                    },
                    None => {},
                }
            } else if tag == TAG_CHECK_UNKNOWN as nat {
                match dec_blob16(r) {
                    Some(br) => {
                        lemma_dec_idseq_sound(br.1);
                        match dec_idseq(br.1) {
                            Some(qr) => {
                                if qr.1.len() == 0 {
                                    let q = qr.0;
                                    lemma_sorted_seq_of(q);
                                    lemma_sorted_to_set_len(q);
                                    assert forall|x: Seq<u8>| q.to_set().contains(x)
                                        implies x.len() == ID_SIZE by {
                                        let i = choose|i: int|
                                            0 <= i < q.len() && q[i] == x;
                                        assert(q[i].len() == ID_SIZE);
                                    }
                                    assert(qr.1 =~= Seq::<u8>::empty());
                                    assert(br.1 =~= enc_idseq(q));
                                    assert(r =~= enc_blob16(br.0) + enc_idseq(q));
                                }
                            },
                            None => {},
                        }
                    },
                    None => {},
                }
            }
        },
    }
}

/// The wire tag of a reply.
pub open spec fn rep_tag(rm: RepModel) -> u16 {
    match rm {
        RepModel::Success => TAG_REP_SUCCESS,
        RepModel::Failure { .. } => TAG_REP_FAILURE,
        RepModel::Tables { .. } => TAG_REP_TABLES,
        RepModel::Count { .. } => TAG_REP_COUNT,
        RepModel::ChunkId { .. } => TAG_REP_CHUNK_ID,
        RepModel::Chunk { .. } => TAG_REP_CHUNK,
        RepModel::Ids { .. } => TAG_REP_IDS,
        RepModel::KeyAbsent { .. } => TAG_REP_KEY_ABSENT,
    }
}

/// The payload behind a reply's tag.
pub open spec fn rep_payload(rm: RepModel) -> Seq<u8> {
    match rm {
        RepModel::Success => Seq::empty(),
        RepModel::Failure { code, info } => enc_le(code_val(code) as nat, 2)
            + enc_blob16(info),
        RepModel::Tables { tables } => enc_nameseq(sorted_seq_of(tables)),
        RepModel::Count { count } => enc_le(count, 8),
        RepModel::ChunkId { id } => id,
        RepModel::Chunk { chunk } => enc_blob24(chunk),
        RepModel::Ids { ids } => enc_idseq(sorted_seq_of(ids)),
        RepModel::KeyAbsent { key } => key,
    }
}

/// The one byte string a reply travels as.
pub open spec fn enc_rep(rm: RepModel) -> Seq<u8> {
    enc_le(rep_tag(rm) as nat, 2) + rep_payload(rm)
}

/// Reads one reply off the wire; exactly the encodings of well-formed
/// replies are accepted, with nothing trailing.
pub open spec fn dec_rep(b: Seq<u8>) -> Option<RepModel> {
    match dec_uint(b, 2) {
        None => None,
        Some(tr) => {
            let tag = tr.0;
            let r = tr.1;
            if tag == TAG_REP_SUCCESS as nat {
                if r.len() == 0 {
                    Some(RepModel::Success)
                } else {
                    None
                }
            } else if tag == TAG_REP_FAILURE as nat {
                match dec_uint(r, 2) {
                    Some(cr) => match code_of_val(cr.0) {
                        Some(code) => match dec_blob16(cr.1) {
                            Some(ir) => if ir.1.len() == 0 {
                                Some(RepModel::Failure { code, info: ir.0 })
                            } else {
                                None
                            },
                            None => None,
                        },
                        None => None,
                    },
                    None => None,
                }
            } else if tag == TAG_REP_TABLES as nat {
                match dec_nameseq(r) {
                    Some(qr) => if qr.1.len() == 0 {
                        Some(RepModel::Tables { tables: qr.0.to_set() })
                    } else {
                        None
                    },
                    None => None,
                }
            } else if tag == TAG_REP_COUNT as nat {
                match dec_uint(r, 8) {
                    Some(cr) => if cr.1.len() == 0 {
                        Some(RepModel::Count { count: cr.0 })
                    } else {
                        None
                    },
                    None => None,
                }
            } else if tag == TAG_REP_CHUNK_ID as nat {
                match dec_id(r) {
                    Some(ir) => if ir.1.len() == 0 {
                        Some(RepModel::ChunkId { id: ir.0 })
                    } else {
                        None
                    },
                    None => None,
                }
            } else if tag == TAG_REP_CHUNK as nat {
                match dec_blob24(r) {
                    Some(cr) => if cr.1.len() == 0 {
                        Some(RepModel::Chunk { chunk: cr.0 })
                    } else {
                        None
                    },
                    None => None,
                }
            } else if tag == TAG_REP_IDS as nat {
                match dec_idseq(r) {
                    Some(qr) => if qr.1.len() == 0 {
                        Some(RepModel::Ids { ids: qr.0.to_set() })
                    } else {
                        None
                    },
                    None => None,
                }
            } else if tag == TAG_REP_KEY_ABSENT as nat {
                match dec_id(r) {
                    Some(kr) => if kr.1.len() == 0 {
                        Some(RepModel::KeyAbsent { key: kr.0 })
                    } else {
                        None
                    },
                    None => None,
                }
            } else {
                None
            }
        },
    }
}

/// Decoding inverts encoding for replies.
pub proof fn lemma_dec_rep(rm: RepModel)
    requires
        wf_rep(rm),
    ensures
        dec_rep(enc_rep(rm)) == Some(rm),
{
    lemma_pow256_vals();
    let tag = rep_tag(rm) as nat;
    let p = rep_payload(rm);
    lemma_dec_uint(tag, 2, p);
    match rm {
        RepModel::Success => {},
        RepModel::Failure { code, info } => {
            lemma_dec_uint(code_val(code) as nat, 2, enc_blob16(info));
            lemma_dec_blob16(info, Seq::empty());
            assert(enc_blob16(info) =~= enc_blob16(info) + Seq::<u8>::empty());
        },
        RepModel::Tables { tables } => {
            let q = sorted_seq_of(tables);
            assert forall|i: int| 0 <= i < q.len()
                implies (#[trigger] q[i]).len() <= MAX_NAME_SIZE by {
                assert(q.to_set().contains(q[i]));
            }
            lemma_sorted_to_set_len(q);
            lemma_dec_nameseq(q, Seq::empty());
            assert(p =~= enc_nameseq(q) + Seq::<u8>::empty());
        },
        RepModel::Count { count } => {
            lemma_dec_uint(count, 8, Seq::empty());
            assert(p =~= enc_le(count, 8) + Seq::<u8>::empty());
        },
        RepModel::ChunkId { id } => {
            lemma_dec_id(id, Seq::empty());
            assert(p =~= id + Seq::<u8>::empty());
        },
        RepModel::Chunk { chunk } => {
            lemma_dec_blob24(chunk, Seq::empty());
            assert(p =~= enc_blob24(chunk) + Seq::<u8>::empty());
        },
        RepModel::Ids { ids } => {
            let q = sorted_seq_of(ids);
            assert forall|i: int| 0 <= i < q.len()
                implies (#[trigger] q[i]).len() == ID_SIZE by {
                assert(q.to_set().contains(q[i]));
            }
            lemma_sorted_to_set_len(q);
            lemma_dec_idseq(q, Seq::empty());
            assert(p =~= enc_idseq(q) + Seq::<u8>::empty());
        },
        RepModel::KeyAbsent { key } => {
            lemma_dec_id(key, Seq::empty());
            assert(p =~= key + Seq::<u8>::empty());
        },
    }
}

/// Writing one more byte of a little-endian encoding.
proof fn lemma_enc_le_snoc(v: nat, i: nat)
    ensures
        enc_le(v, i + 1) == enc_le(v, i).push((((v / pow256(i)) % 256) as u8)),
    decreases i,
{
    if i == 0 {
        assert(v / pow256(0) == v) by {
            assert(pow256(0) == 1);
            assert(v / 1 == v) by (nonlinear_arith);
        }
        assert(enc_le(v / 256, 0) =~= Seq::<u8>::empty());
        assert(enc_le(v, 1) =~= seq![(v % 256) as u8]);
        assert(enc_le(v, 0) =~= Seq::<u8>::empty());
        assert(enc_le(v, 0).push(((v / pow256(0)) % 256) as u8) =~= seq![(v % 256) as u8]);
    } else {
        lemma_enc_le_snoc(v / 256, (i - 1) as nat);
        assert((v / 256) / pow256((i - 1) as nat) == v / pow256(i)) by {
            lemma_pow256_pos((i - 1) as nat);
            vstd::arithmetic::div_mod::lemma_div_denominator(
                v as int, 256, pow256((i - 1) as nat) as int);
            assert(256 * pow256((i - 1) as nat) == pow256(i));
        }
        assert(enc_le(v, i + 1) =~= enc_le(v, i).push((((v / pow256(i)) % 256) as u8)));
    }
}

/// Appends the `n`-byte little-endian form of `v`.
fn write_le(out: &mut Vec<u8>, v: u64, n: usize)
    requires
        (v as nat) < pow256(n as nat),
        n <= 8,
    ensures
        final(out)@ == old(out)@ + enc_le(v as nat, n as nat),
{
    let mut i: usize = 0;
    let mut cur: u64 = v;
    proof {
        assert(out@ =~= old(out)@ + enc_le(v as nat, 0));
        assert(cur as nat == (v as nat) / pow256(0)) by {
            assert(pow256(0) == 1);
            assert((v as nat) / 1 == v as nat) by (nonlinear_arith);
        }
    }
    while i < n
        invariant
            0 <= i <= n,
            n <= 8,
            out@ == old(out)@ + enc_le(v as nat, i as nat),
            cur as nat == (v as nat) / pow256(i as nat),
        decreases n - i,
    {
        let byte = (cur % 256) as u8;
        out.push(byte);
        proof {
            lemma_enc_le_snoc(v as nat, i as nat);
            assert(out@ =~= old(out)@ + enc_le(v as nat, (i + 1) as nat));
        }
        cur = cur / 256;
        proof {
            lemma_pow256_pos(i as nat);
            vstd::arithmetic::div_mod::lemma_div_denominator(
                v as int, pow256(i as nat) as int, 256);
            assert(pow256(i as nat) * 256 == pow256((i + 1) as nat));
            assert(cur as nat == (v as nat) / pow256((i + 1) as nat));
        }
        i = i + 1;
    }
}

/// Reads the `n`-byte little-endian integer at `pos`.
fn read_le(b: &Vec<u8>, pos: usize, n: usize) -> (r: Option<(u64, usize)>)
    requires
        pos <= b@.len(),
        1 <= n <= 8,
    ensures
        match r {
            Some(vp) => pos + n <= b@.len() && vp.1 == pos + n
                && (vp.0 as nat) == le_val(b@.skip(pos as int).take(n as int))
                && (vp.0 as nat) < pow256(n as nat),
            None => b@.len() < pos + n,
        },
{
    if b.len() - pos < n {
        return None;
    }
    let ghost s = b@.skip(pos as int).take(n as int);
    proof {
        lemma_le_sound(s);
        assert(s.len() == n);
    }
    let blen = b.len();
    let mut j: usize = n;
    let mut cur: u64 = 0;
    proof {
        assert(s.subrange(n as int, n as int) =~= Seq::<u8>::empty());
        lemma_pow256_vals();
    }
    while j > 0
        invariant
            0 <= j <= n,
            1 <= n <= 8,
            pos + n <= b@.len(),
            blen == b@.len(),
            s == b@.skip(pos as int).take(n as int),
            s.len() == n,
            (cur as nat) == le_val(s.subrange(j as int, n as int)),
            (cur as nat) < pow256((n - j) as nat),
        decreases j,
    {
        j = j - 1;
        let byte = b[pos + j];
        proof {
            assert(s[j as int] == b@[pos + j]) by {
                assert(s[j as int] == b@.skip(pos as int)[j as int]);
            }
            assert(s.subrange(j as int, n as int).skip(1) =~= s.subrange(j + 1, n as int));
            assert(le_val(s.subrange(j as int, n as int))
                == (byte as nat) + 256 * le_val(s.subrange(j + 1, n as int)));
            lemma_pow256_mono((n - j - 1) as nat, 7);
            lemma_pow256_vals();
            assert(pow256((n - j) as nat) == 256 * pow256((n - j - 1) as nat));
        }
        cur = cur * 256 + (byte as u64);
        proof {
            assert((cur as nat) < pow256((n - j) as nat));
        }
    }
    proof {
        assert(s.subrange(0, n as int) =~= s);
        lemma_pow256_mono(n as nat, 8);
    }
    Some((cur, pos + n))
}

/// Appends a copy of `b`.
fn append_bytes(out: &mut Vec<u8>, b: &Vec<u8>)
    ensures
        final(out)@ == old(out)@ + b@,
{
    let n = b.len();
    let mut k: usize = 0;
    while k < n
        invariant
            0 <= k <= n,
            n == b@.len(),
            out@ == old(out)@ + b@.take(k as int),
        decreases n - k,
    {
        out.push(b[k]);
        proof {
            assert(out@ =~= old(out)@ + b@.take(k + 1));
        }
        k = k + 1;
    }
    proof {
        assert(b@.take(n as int) =~= b@);
    }
}

/// A detached copy of `n` bytes starting at `start`.
fn copy_range(b: &Vec<u8>, start: usize, n: usize) -> (r: Vec<u8>)
    requires
        start + n <= b@.len(),
    ensures
        r@ == b@.subrange(start as int, start + n),
{
    let blen = b.len();
    let mut r: Vec<u8> = Vec::new();
    let mut k: usize = 0;
    proof {
        assert(r@ =~= b@.subrange(start as int, start as int));
    }
    while k < n
        invariant
            0 <= k <= n,
            start + n <= b@.len(),
            blen == b@.len(),
            r@ == b@.subrange(start as int, start + k),
        decreases n - k,
    {
        r.push(b[start + k]);
        proof {
            assert(r@ =~= b@.subrange(start as int, start + k + 1));
        }
        k = k + 1;
    }
    r
}

/// Appends a blob under its two-byte length prefix.
fn write_blob16(out: &mut Vec<u8>, b: &Vec<u8>)
    requires
        b@.len() <= MAX_NAME_SIZE,
    ensures
        final(out)@ == old(out)@ + enc_blob16(b@),
{
    proof {
        lemma_pow256_vals();
    }
    write_le(out, b.len() as u64, 2);
    append_bytes(out, b);
    proof {
        assert(out@ =~= old(out)@ + enc_blob16(b@));
    }
}

/// Appends a blob under its three-byte length prefix.
fn write_blob24(out: &mut Vec<u8>, b: &Vec<u8>)
    requires
        b@.len() <= MAX_CHUNK_SIZE,
    ensures
        final(out)@ == old(out)@ + enc_blob24(b@),
{
    proof {
        lemma_pow256_vals();
    }
    write_le(out, b.len() as u64, 3);
    append_bytes(out, b);
    proof {
        assert(out@ =~= old(out)@ + enc_blob24(b@));
    }
}

/// Encoding distributes over concatenation of id sequences.
proof fn lemma_enc_ids_append(a: Seq<Seq<u8>>, b: Seq<Seq<u8>>)
    ensures
        enc_ids(a + b) == enc_ids(a) + enc_ids(b),
    decreases a.len(),
{
    if a.len() == 0 {
        assert(a + b =~= b);
        assert(enc_ids(a) + enc_ids(b) =~= enc_ids(b));
    } else {
        assert((a + b)[0] == a[0]);
        assert((a + b).skip(1) =~= a.skip(1) + b);
        lemma_enc_ids_append(a.skip(1), b);
        assert(enc_ids(a + b) =~= enc_ids(a) + enc_ids(b));
    }
}

/// Encoding distributes over concatenation of name sequences.
proof fn lemma_enc_names_append(a: Seq<Seq<u8>>, b: Seq<Seq<u8>>)
    ensures
        enc_names(a + b) == enc_names(a) + enc_names(b),
    decreases a.len(),
{
    if a.len() == 0 {
        assert(a + b =~= b);
        assert(enc_names(a) + enc_names(b) =~= enc_names(b));
    } else {
        assert((a + b)[0] == a[0]);
        assert((a + b).skip(1) =~= a.skip(1) + b);
        lemma_enc_names_append(a.skip(1), b);
        assert(enc_names(a + b) =~= enc_names(a) + enc_names(b));
    }
}

/// Appends an id set: count, then the elements ascending.
fn write_idseq(out: &mut Vec<u8>, ids: &crate::idset::IdSet)
    requires
        ids.wf(),
        ids@.len() <= MAX_SET_ITEMS,
    ensures
        final(out)@ == old(out)@ + enc_idseq(ids@),
{
    proof {
        lemma_pow256_vals();
    }
    write_le(out, ids.len() as u64, 2);
    let n = ids.len();
    let mut k: usize = 0;
    proof {
        assert(enc_ids(ids@.take(0)) =~= Seq::<u8>::empty());
        assert(out@ =~= old(out)@ + enc_le(ids@.len(), 2) + enc_ids(ids@.take(0)));
    }
    while k < n
        invariant
            0 <= k <= n,
            n == ids@.len(),
            ids.wf(),
            out@ == old(out)@ + enc_le(ids@.len(), 2) + enc_ids(ids@.take(k as int)),
        decreases n - k,
    {
        append_bytes(out, ids.get(k).as_bytes());
        proof {
            lemma_enc_ids_append(ids@.take(k as int), seq![ids@[k as int]]);
            assert(ids@.take(k + 1) =~= ids@.take(k as int) + seq![ids@[k as int]]);
            assert(enc_ids(seq![ids@[k as int]]) =~= ids@[k as int]) by {
                assert(seq![ids@[k as int]].skip(1) =~= Seq::<Seq<u8>>::empty());
                assert(enc_ids(Seq::<Seq<u8>>::empty()) == Seq::<u8>::empty());
                assert(enc_ids(seq![ids@[k as int]])
                    == seq![ids@[k as int]][0] + enc_ids(seq![ids@[k as int]].skip(1)));
            }
            assert(out@ =~= old(out)@ + enc_le(ids@.len(), 2) + enc_ids(ids@.take(k + 1)));
        }
        k = k + 1;
    }
    proof {
        assert(ids@.take(n as int) =~= ids@);
        assert(out@ =~= old(out)@ + enc_idseq(ids@));
    }
}

/// Appends a name set: count, then the elements ascending, each under its
/// length prefix.
fn write_nameseq(out: &mut Vec<u8>, names: &crate::nameset::NameSet)
    requires
        names.wf(),
        names@.len() <= MAX_SET_ITEMS,
        forall|i: int| 0 <= i < names@.len() ==> (#[trigger] names@[i]).len() <= MAX_NAME_SIZE,
    ensures
        final(out)@ == old(out)@ + enc_nameseq(names@),
{
    proof {
        lemma_pow256_vals();
    }
    write_le(out, names.len() as u64, 2);
    let n = names.len();
    let mut k: usize = 0;
    proof {
        assert(enc_names(names@.take(0)) =~= Seq::<u8>::empty());
        assert(out@ =~= old(out)@ + enc_le(names@.len(), 2) + enc_names(names@.take(0)));
    }
    while k < n
        invariant
            0 <= k <= n,
            n == names@.len(),
            names.wf(),
            forall|i: int| 0 <= i < names@.len()
                ==> (#[trigger] names@[i]).len() <= MAX_NAME_SIZE,
            out@ == old(out)@ + enc_le(names@.len(), 2) + enc_names(names@.take(k as int)),
        decreases n - k,
    {
        write_blob16(out, names.get(k));
        proof {
            lemma_enc_names_append(names@.take(k as int), seq![names@[k as int]]);
            assert(names@.take(k + 1) =~= names@.take(k as int) + seq![names@[k as int]]);
            assert(enc_names(seq![names@[k as int]]) =~= enc_blob16(names@[k as int])) by {
                assert(seq![names@[k as int]].skip(1) =~= Seq::<Seq<u8>>::empty());
                assert(enc_names(Seq::<Seq<u8>>::empty()) == Seq::<u8>::empty());
                assert(enc_names(seq![names@[k as int]]) == enc_blob16(seq![names@[k as int]][0])
                    + enc_names(seq![names@[k as int]].skip(1)));
            }
            assert(out@ =~= old(out)@ + enc_le(names@.len(), 2)
                + enc_names(names@.take(k + 1)));
        }
        k = k + 1;
    }
    proof {
        assert(names@.take(n as int) =~= names@);
        assert(out@ =~= old(out)@ + enc_nameseq(names@));
    }
}

/// Decoding accepts nothing else for replies.
#[verifier::rlimit(50)]
pub proof fn lemma_dec_rep_sound(b: Seq<u8>)
    ensures
        match dec_rep(b) {
            Some(rm) => b == enc_rep(rm) && wf_rep(rm),
            None => true,
        },
{
    lemma_pow256_vals();
    lemma_dec_uint_sound(b, 2);
    match dec_uint(b, 2) {
        None => {},
        Some(tr) => {
            let tag = tr.0;
            let r = tr.1;
            if tag == TAG_REP_SUCCESS as nat {
                if r.len() == 0 {
                    assert(r =~= Seq::<u8>::empty());
                    assert(b =~= enc_le(tag, 2) + r);
                }
            } else if tag == TAG_REP_FAILURE as nat {
                lemma_dec_uint_sound(r, 2);
                match dec_uint(r, 2) {
                    Some(cr) => match code_of_val(cr.0) {
                        Some(code) => {
                            lemma_dec_blob16_sound(cr.1);
                            match dec_blob16(cr.1) {
                                Some(ir) => {
                                    if ir.1.len() == 0 {
                                        assert(ir.1 =~= Seq::<u8>::empty());
                                        assert(cr.1 =~= enc_blob16(ir.0));
                                        assert(code_val(code) as nat == cr.0);
                                        assert(r =~= enc_le(cr.0, 2) + enc_blob16(ir.0));
                                    }
                                },
                                None => {},
                            }
                        },
                        None => {},
                    },
                    None => {},
                }
            } else if tag == TAG_REP_TABLES as nat {
                lemma_dec_nameseq_sound(r);
                match dec_nameseq(r) {
                    Some(qr) => {
                        if qr.1.len() == 0 {
                            let q = qr.0;
                            lemma_sorted_seq_of(q);
                            lemma_sorted_to_set_len(q);
                            assert forall|x: Seq<u8>| q.to_set().contains(x)
                                implies x.len() <= MAX_NAME_SIZE by {
                                let i = choose|i: int| 0 <= i < q.len() && q[i] == x;
                                assert(q[i].len() <= MAX_NAME_SIZE);
                            }
                            assert(qr.1 =~= Seq::<u8>::empty());
                            assert(r =~= enc_nameseq(q));
                        }
                    },
                    None => {},
                }
            } else if tag == TAG_REP_COUNT as nat {
                lemma_dec_uint_sound(r, 8);
                match dec_uint(r, 8) {
                    Some(cr) => {
                        if cr.1.len() == 0 {
                            assert(cr.1 =~= Seq::<u8>::empty());
                            assert(r =~= enc_le(cr.0, 8));
                        }
                    },
                    None => {},
                }
            } else if tag == TAG_REP_CHUNK_ID as nat || tag == TAG_REP_KEY_ABSENT as nat {
                lemma_dec_id_sound(r);
                match dec_id(r) {
                    Some(ir) => {
                        if ir.1.len() == 0 {
                            assert(ir.1 =~= Seq::<u8>::empty());
                            assert(r =~= ir.0);
                        }
                    },
                    None => {},
                }
            } else if tag == TAG_REP_CHUNK as nat {
                lemma_dec_blob24_sound(r);
                match dec_blob24(r) {
                    Some(cr) => {
                        if cr.1.len() == 0 {
                            assert(cr.1 =~= Seq::<u8>::empty());
                            assert(r =~= enc_blob24(cr.0));
                        }
                    },
                    None => {},
                }
            } else if tag == TAG_REP_IDS as nat {
                lemma_dec_idseq_sound(r);
                match dec_idseq(r) {
                    Some(qr) => {
                        if qr.1.len() == 0 {
                            let q = qr.0;
                            lemma_sorted_seq_of(q);
                            lemma_sorted_to_set_len(q);
                            assert forall|x: Seq<u8>| q.to_set().contains(x)
                                implies x.len() == ID_SIZE by {
                                let i = choose|i: int| 0 <= i < q.len() && q[i] == x;
                                assert(q[i].len() == ID_SIZE);
                            }
                            assert(qr.1 =~= Seq::<u8>::empty());
                            assert(r =~= enc_idseq(q));
                        }
                    },
                    None => {},
                }
            }
        },
    }
}

/// Turns a request into its one byte form.
pub fn encode_request(r: &Request) -> (out: Vec<u8>)
    requires
        r.wf(),
    ensures
        out@ == enc_req(r@),
{
    proof {
        lemma_pow256_vals();
    }
    let mut out: Vec<u8> = Vec::new();
    match r {
        Request::Use(t) => {
            write_le(&mut out, TAG_USE as u64, 2);
            write_blob16(&mut out, t);
            proof {
                assert(out@ =~= enc_req(r@));
            }
        },
        Request::Tables => {
            write_le(&mut out, TAG_TABLES as u64, 2);
            proof {
                assert(out@ =~= enc_req(r@));
            }
        },
        Request::Count(t) => {
            write_le(&mut out, TAG_COUNT as u64, 2);
            write_blob16(&mut out, t);
            proof {
                assert(out@ =~= enc_req(r@));
            }
        },
        Request::Store(sr) => {
            write_le(&mut out, TAG_STORE as u64, 2);
            write_blob16(&mut out, &sr.table);
            append_bytes(&mut out, sr.key.as_bytes());
            write_blob24(&mut out, sr.chunk.as_bytes());
            proof {
                assert(out@ =~= enc_req(r@));
            }
        },
        Request::Retrieve(rr) => {
            write_le(&mut out, TAG_RETRIEVE as u64, 2);
            write_blob16(&mut out, &rr.table);
            append_bytes(&mut out, rr.key.as_bytes());
            proof {
                assert(out@ =~= enc_req(r@));
            }
        },
        Request::Insert(ir) => {
            write_le(&mut out, TAG_INSERT as u64, 2);
            write_blob16(&mut out, &ir.table);
            append_bytes(&mut out, ir.key.as_bytes());
            append_bytes(&mut out, ir.item.as_bytes());
            proof {
                assert(out@ =~= enc_req(r@));
            }
        },
        Request::ListIds(t) => {
            write_le(&mut out, TAG_LIST_IDS as u64, 2);
            write_blob16(&mut out, t);
            proof {
                assert(out@ =~= enc_req(r@));
            }
        },
        Request::CheckUnknown(cr) => {
            write_le(&mut out, TAG_CHECK_UNKNOWN as u64, 2);
            write_blob16(&mut out, &cr.table);
            write_idseq(&mut out, &cr.ids);
            proof {
                lemma_sorted_seq_of(cr.ids@);
                assert(out@ =~= enc_req(r@));
            }
        },
    }
    out
}

/// The failure code behind a wire value, executable side.
fn decode_code(v: u64) -> (r: Option<FailureCode>)
    ensures
        r == code_of_val(v as nat),
{
    if v == CODE_UNKNOWN as u64 {
        Some(FailureCode::Unknown)
    } else if v == CODE_DATABASE as u64 {
        Some(FailureCode::Database)
    } else if v == CODE_ENCODING as u64 {
        Some(FailureCode::Encoding)
    } else if v == CODE_PRESENTATION as u64 {
        Some(FailureCode::Presentation)
    } else {
        None
    }
}

/// The wire value of a failure code, executable side.
fn code_to_u16(c: FailureCode) -> (r: u16)
    ensures
        r == code_val(c),
{
    match c {
        FailureCode::Unknown => CODE_UNKNOWN,
        FailureCode::Database => CODE_DATABASE,
        FailureCode::Encoding => CODE_ENCODING,
        FailureCode::Presentation => CODE_PRESENTATION,
    }
}

/// Turns a reply into its one byte form, or nothing where the reply is over
/// the wire size bounds.
pub fn encode_reply(r: &Reply) -> (out: Option<Vec<u8>>)
    requires
        r.ordered(),
    ensures
        match out {
            Some(v) => wf_rep(r@) && v@ == enc_rep(r@),
            None => !wf_rep(r@),
        },
{
    proof {
        lemma_pow256_vals();
    }
    let mut out: Vec<u8> = Vec::new();
    match r {
        Reply::Success => {
            write_le(&mut out, TAG_REP_SUCCESS as u64, 2);
            proof {
                assert(out@ =~= enc_rep(r@));
            }
            Some(out)
        },
        Reply::Failure(f) => {
            if f.info.len() > MAX_INFO_SIZE {
                return None;
            }
            write_le(&mut out, TAG_REP_FAILURE as u64, 2);
            let code = code_to_u16(f.code);
            write_le(&mut out, code as u64, 2);
            write_blob16(&mut out, &f.info);
            proof {
                assert(out@ =~= enc_rep(r@));
            }
            Some(out)
        },
        Reply::Tables(ns) => {
            proof {
                lemma_sorted_to_set_len(ns@);
                lemma_sorted_seq_of(ns@);
            }
            if ns.len() > MAX_SET_ITEMS {
                return None;
            }
            let n = ns.len();
            let mut k: usize = 0;
            while k < n
                invariant
                    0 <= k <= n,
                    n == ns@.len(),
                    ns.wf(),
                    r@ == (RepModel::Tables { tables: ns.to_set() }),
                    forall|i: int| 0 <= i < k ==> (#[trigger] ns@[i]).len() <= MAX_NAME_SIZE,
                decreases n - k,
            {
                if ns.get(k).len() > MAX_NAME_SIZE {
                    proof {
                        assert(ns.to_set().contains(ns@[k as int]));
                    }
                    return None;
                }
                k = k + 1;
            }
            write_le(&mut out, TAG_REP_TABLES as u64, 2);
            write_nameseq(&mut out, ns);
            proof {
                assert forall|x: Seq<u8>| ns.to_set().contains(x)
                    implies x.len() <= MAX_NAME_SIZE by {
                    let i = choose|i: int| 0 <= i < ns@.len() && ns@[i] == x;
                    assert(ns@[i].len() <= MAX_NAME_SIZE);
                }
                assert(out@ =~= enc_rep(r@));
            }
            Some(out)
        },
        Reply::Count(c) => {
            write_le(&mut out, TAG_REP_COUNT as u64, 2);
            write_le(&mut out, *c, 8);
            proof {
                assert(out@ =~= enc_rep(r@));
            }
            Some(out)
        },
        Reply::ChunkId(id) => {
            write_le(&mut out, TAG_REP_CHUNK_ID as u64, 2);
            append_bytes(&mut out, id.as_bytes());
            proof {
                assert(out@ =~= enc_rep(r@));
            }
            Some(out)
        },
        Reply::Chunk(c) => {
            write_le(&mut out, TAG_REP_CHUNK as u64, 2);
            write_blob24(&mut out, c.as_bytes());
            proof {
                assert(out@ =~= enc_rep(r@));
            }
            Some(out)
        },
        Reply::Ids(s) => {
            proof {
                lemma_sorted_to_set_len(s@);
                lemma_sorted_seq_of(s@);
            }
            if s.len() > MAX_SET_ITEMS {
                return None;
            }
            write_le(&mut out, TAG_REP_IDS as u64, 2);
            write_idseq(&mut out, s);
            proof {
                assert forall|x: Seq<u8>| s.to_set().contains(x)
                    implies x.len() == ID_SIZE by {
                    let i = choose|i: int| 0 <= i < s@.len() && s@[i] == x;
                    assert(s@[i].len() == ID_SIZE);
                }
                assert(out@ =~= enc_rep(r@));
            }
            Some(out)
        },
        Reply::KeyAbsent(k) => {
            write_le(&mut out, TAG_REP_KEY_ABSENT as u64, 2);
            append_bytes(&mut out, k.as_bytes());
            proof {
                assert(out@ =~= enc_rep(r@));
            }
            Some(out)
        },
    }
}

/// Reads a length-prefixed blob at `pos`.
fn read_blob16(b: &Vec<u8>, pos: usize) -> (r: Option<(Vec<u8>, usize)>)
    requires
        pos <= b@.len(),
    ensures
        match r {
            Some(vp) => pos <= vp.1 <= b@.len() && vp.0@.len() <= MAX_NAME_SIZE
                && dec_blob16(b@.skip(pos as int)) == Some((vp.0@, b@.skip(vp.1 as int))),
            None => dec_blob16(b@.skip(pos as int)) is None,
        },
{
    let ghost s = b@.skip(pos as int);
    proof {
        lemma_pow256_vals();
    }
    match read_le(b, pos, 2) {
        None => None,
        Some(np) => {
            let n = np.0 as usize;
            let p2 = np.1;
            proof {
                assert(s.skip(2) =~= b@.skip(p2 as int));
            }
            if b.len() - p2 < n {
                return None;
            }
            let v = copy_range(b, p2, n);
            proof {
                assert(v@ =~= s.skip(2).take(n as int));
                assert(b@.skip((p2 + n) as int) =~= s.skip(2).skip(n as int));
            }
            Some((v, p2 + n))
        },
    }
}

/// Reads a chunk body (three-byte length prefix) at `pos`.
fn read_blob24(b: &Vec<u8>, pos: usize) -> (r: Option<(Vec<u8>, usize)>)
    requires
        pos <= b@.len(),
    ensures
        match r {
            Some(vp) => pos <= vp.1 <= b@.len() && vp.0@.len() <= MAX_CHUNK_SIZE
                && dec_blob24(b@.skip(pos as int)) == Some((vp.0@, b@.skip(vp.1 as int))),
            None => dec_blob24(b@.skip(pos as int)) is None,
        },
{
    let ghost s = b@.skip(pos as int);
    proof {
        lemma_pow256_vals();
    }
    match read_le(b, pos, 3) {
        None => None,
        Some(np) => {
            let n = np.0 as usize;
            let p2 = np.1;
            proof {
                assert(s.skip(3) =~= b@.skip(p2 as int));
            }
            if b.len() - p2 < n {
                return None;
            }
            let v = copy_range(b, p2, n);
            proof {
                assert(v@ =~= s.skip(3).take(n as int));
                assert(b@.skip((p2 + n) as int) =~= s.skip(3).skip(n as int));
            }
            Some((v, p2 + n))
        },
    }
}

/// Reads a raw 32-byte identifier at `pos`.
fn read_id_raw(b: &Vec<u8>, pos: usize) -> (r: Option<(Vec<u8>, usize)>)
    requires
        pos <= b@.len(),
    ensures
        match r {
            Some(vp) => vp.1 == pos + ID_SIZE && vp.1 <= b@.len() && vp.0@.len() == ID_SIZE
                && dec_id(b@.skip(pos as int)) == Some((vp.0@, b@.skip(vp.1 as int))),
            None => dec_id(b@.skip(pos as int)) is None,
        },
{
    let ghost s = b@.skip(pos as int);
    if b.len() - pos < ID_SIZE {
        return None;
    }
    let v = copy_range(b, pos, ID_SIZE);
    proof {
        assert(v@ =~= s.take(ID_SIZE as int));
        assert(b@.skip((pos + ID_SIZE) as int) =~= s.skip(ID_SIZE as int));
    }
    Some((v, pos + ID_SIZE))
}

/// Reads an ascending id set at `pos`.
fn read_idseq(b: &Vec<u8>, pos: usize) -> (r: Option<(crate::idset::IdSet, usize)>)
    requires
        pos <= b@.len(),
    ensures
        match r {
            Some(sp) => sp.0.wf() && sp.0@.len() <= MAX_SET_ITEMS && sp.1 <= b@.len()
                && dec_idseq(b@.skip(pos as int)) == Some((sp.0@, b@.skip(sp.1 as int))),
            None => dec_idseq(b@.skip(pos as int)) is None,
        },
{
    let ghost s = b@.skip(pos as int);
    proof {
        lemma_pow256_vals();
    }
    let np = match read_le(b, pos, 2) {
        None => {
            return None;
        },
        Some(x) => x,
    };
    let cnt = np.0 as usize;
    let mut pos2 = np.1;
    let ghost s0 = s.skip(2);
    proof {
        assert(s0 =~= b@.skip(pos2 as int));
        assert(dec_uint(s, 2) == Some((cnt as nat, s0)));
    }
    let mut raw: Vec<crate::chunk::ChunkId> = Vec::new();
    let mut sorted_ok = true;
    let mut k: usize = 0;
    proof {
        assert(raw@.map_values(|id: crate::chunk::ChunkId| id@) =~= Seq::<Seq<u8>>::empty());
        assert(raw@.map_values(|id: crate::chunk::ChunkId| id@)
            + Seq::<Seq<u8>>::empty() =~= Seq::<Seq<u8>>::empty());
    }
    while k < cnt
        invariant
            0 <= k <= cnt,
            cnt < 0x1_0000,
            pos2 <= b@.len(),
            raw@.len() == k,
            forall|i: int| 0 <= i < k ==> (#[trigger] raw@[i])@.len() == ID_SIZE,
            sorted_ok == crate::order::adjacent_sorted(
                raw@.map_values(|id: crate::chunk::ChunkId| id@)),
            dec_uint(s, 2) == Some((cnt as nat, s0)),
            s == b@.skip(pos as int),
            ({
                let rawv = raw@.map_values(|id: crate::chunk::ChunkId| id@);
                match dec_ids(b@.skip(pos2 as int), (cnt - k) as nat) {
                    Some(qr) => dec_ids(s0, cnt as nat) == Some((rawv + qr.0, qr.1)),
                    None => dec_ids(s0, cnt as nat) is None,
                }
            }),
        decreases cnt - k,
    {
        let ghost rawv_old = raw@.map_values(|id: crate::chunk::ChunkId| id@);
        let ghost opos = pos2;
        match read_id_raw(b, pos2) {
            None => {
                return None;
            },
            Some(ip) => {
                let idb = ip.0;
                let p3 = ip.1;
                if raw.len() > 0 {
                    let last = raw.len() - 1;
                    let c = cmp_bytes(raw[last].as_bytes(), &idb);
                    if !matches!(c, Ordering3::Less) {
                        sorted_ok = false;
                    }
                }
                let ghost idv = idb@;
                let id = crate::chunk::ChunkId::from_checked(idb);
                raw.push(id);
                pos2 = p3;
                k = k + 1;
                proof {
                    let rawv = raw@.map_values(|id2: crate::chunk::ChunkId| id2@);
                    assert(rawv =~= rawv_old.push(idv));
                    assert(sorted_ok == crate::order::adjacent_sorted(rawv)) by {
                        if crate::order::adjacent_sorted(rawv_old)
                            && (rawv_old.len() == 0
                                || crate::order::lex_lt(rawv_old.last(), idv)) {
                            assert forall|i: int| 0 <= i < rawv.len() - 1
                                implies crate::order::lex_lt(#[trigger] rawv[i], rawv[i + 1]) by {
                                if i < rawv_old.len() - 1 {
                                    assert(crate::order::lex_lt(rawv_old[i], rawv_old[i + 1]));
                                }
                            }
                        }
                        if crate::order::adjacent_sorted(rawv) {
                            assert forall|i: int| 0 <= i < rawv_old.len() - 1
                                implies crate::order::lex_lt(#[trigger] rawv_old[i], rawv_old[i + 1]) by {
                                assert(crate::order::lex_lt(rawv[i], rawv[i + 1]));
                            }
                            if rawv_old.len() > 0 {
                                assert(crate::order::lex_lt(
                                    rawv[rawv_old.len() - 1], rawv[rawv_old.len() as int]));
                            }
                        }
                    }
                    assert(({
                        match dec_ids(b@.skip(pos2 as int), (cnt - k) as nat) {
                            Some(qr) => dec_ids(s0, cnt as nat) == Some((rawv + qr.0, qr.1)),
                            None => dec_ids(s0, cnt as nat) is None,
                        }
                    })) by {
                        assert(dec_id(b@.skip(opos as int)) == Some((idv, b@.skip(p3 as int))));
                        match dec_ids(b@.skip(p3 as int), (cnt - k) as nat) {
                            Some(qr) => {
                                assert(dec_ids(b@.skip(opos as int), (cnt - k + 1) as nat)
                                    == Some((seq![idv] + qr.0, qr.1)));
                                assert(rawv_old + (seq![idv] + qr.0) =~= rawv + qr.0);
                            },
                            None => {
                                assert(dec_ids(b@.skip(opos as int), (cnt - k + 1) as nat)
                                    is None);
                            },
                        }
                    }
                }
            },
        }
    }
    proof {
        let rawv = raw@.map_values(|id: crate::chunk::ChunkId| id@);
        assert(dec_ids(b@.skip(pos2 as int), 0) == Some((Seq::<Seq<u8>>::empty(),
            b@.skip(pos2 as int))));
        assert(rawv + Seq::<Seq<u8>>::empty() =~= rawv);
        assert(dec_ids(s0, cnt as nat) == Some((rawv, b@.skip(pos2 as int))));
    }
    if !sorted_ok {
        proof {
            let rawv = raw@.map_values(|id: crate::chunk::ChunkId| id@);
            if sorted_strict(rawv) {
                assert(crate::order::adjacent_sorted(rawv)) by {
                    assert forall|i: int| 0 <= i < rawv.len() - 1
                        implies crate::order::lex_lt(#[trigger] rawv[i], rawv[i + 1]) by {
                        assert(crate::order::lex_lt(rawv[i], rawv[i + 1]));
                    }
                }
            }
        }
        return None;
    }
    proof {
        crate::order::lemma_adjacent_sorted(
            raw@.map_values(|id: crate::chunk::ChunkId| id@));
    }
    let ids = crate::idset::IdSet::from_sorted(raw);
    Some((ids, pos2))
}

/// Reads an ascending name set at `pos`.
fn read_nameseq(b: &Vec<u8>, pos: usize) -> (r: Option<(crate::nameset::NameSet, usize)>)
    requires
        pos <= b@.len(),
    ensures
        match r {
            Some(sp) => sp.0.wf() && sp.0@.len() <= MAX_SET_ITEMS && sp.1 <= b@.len()
                && (forall|i: int| 0 <= i < sp.0@.len()
                    ==> (#[trigger] sp.0@[i]).len() <= MAX_NAME_SIZE)
                && dec_nameseq(b@.skip(pos as int)) == Some((sp.0@, b@.skip(sp.1 as int))),
            None => dec_nameseq(b@.skip(pos as int)) is None,
        },
{
    let ghost s = b@.skip(pos as int);
    proof {
        lemma_pow256_vals();
    }
    let np = match read_le(b, pos, 2) {
        None => {
            return None;
        },
        Some(x) => x,
    };
    let cnt = np.0 as usize;
    let mut pos2 = np.1;
    let ghost s0 = s.skip(2);
    proof {
        assert(s0 =~= b@.skip(pos2 as int));
        assert(dec_uint(s, 2) == Some((cnt as nat, s0)));
    }
    let mut raw: Vec<Vec<u8>> = Vec::new();
    let mut sorted_ok = true;
    let mut k: usize = 0;
    proof {
        assert(raw@.map_values(|n: Vec<u8>| n@) =~= Seq::<Seq<u8>>::empty());
    }
    while k < cnt
        invariant
            0 <= k <= cnt,
            cnt < 0x1_0000,
            pos2 <= b@.len(),
            raw@.len() == k,
            forall|i: int| 0 <= i < k ==> (#[trigger] raw@[i])@.len() <= MAX_NAME_SIZE,
            sorted_ok == crate::order::adjacent_sorted(raw@.map_values(|n: Vec<u8>| n@)),
            dec_uint(s, 2) == Some((cnt as nat, s0)),
            s == b@.skip(pos as int),
            ({
                let rawv = raw@.map_values(|n: Vec<u8>| n@);
                match dec_names(b@.skip(pos2 as int), (cnt - k) as nat) {
                    Some(qr) => dec_names(s0, cnt as nat) == Some((rawv + qr.0, qr.1)),
                    None => dec_names(s0, cnt as nat) is None,
                }
            }),
        decreases cnt - k,
    {
        let ghost rawv_old = raw@.map_values(|n: Vec<u8>| n@);
        let ghost opos = pos2;
        match read_blob16(b, pos2) {
            None => {
                return None;
            },
            Some(ip) => {
                let nameb = ip.0;
                let p3 = ip.1;
                if raw.len() > 0 {
                    let last = raw.len() - 1;
                    let c = cmp_bytes(&raw[last], &nameb);
                    if !matches!(c, Ordering3::Less) {
                        sorted_ok = false;
                    }
                }
                let ghost namev = nameb@;
                raw.push(nameb);
                pos2 = p3;
                k = k + 1;
                proof {
                    let rawv = raw@.map_values(|n: Vec<u8>| n@);
                    assert(rawv =~= rawv_old.push(namev));
                    assert(sorted_ok == crate::order::adjacent_sorted(rawv)) by {
                        if crate::order::adjacent_sorted(rawv_old)
                            && (rawv_old.len() == 0
                                || crate::order::lex_lt(rawv_old.last(), namev)) {
                            assert forall|i: int| 0 <= i < rawv.len() - 1
                                implies crate::order::lex_lt(#[trigger] rawv[i], rawv[i + 1]) by {
                                if i < rawv_old.len() - 1 {
                                    assert(crate::order::lex_lt(rawv_old[i], rawv_old[i + 1]));
                                }
                            }
                        }
                        if crate::order::adjacent_sorted(rawv) {
                            assert forall|i: int| 0 <= i < rawv_old.len() - 1
                                implies crate::order::lex_lt(#[trigger] rawv_old[i], rawv_old[i + 1]) by {
                                assert(crate::order::lex_lt(rawv[i], rawv[i + 1]));
                            }
                            if rawv_old.len() > 0 {
                                assert(crate::order::lex_lt(
                                    rawv[rawv_old.len() - 1], rawv[rawv_old.len() as int]));
                            }
                        }
                    }
                    assert(({
                        match dec_names(b@.skip(pos2 as int), (cnt - k) as nat) {
                            Some(qr) => dec_names(s0, cnt as nat) == Some((rawv + qr.0, qr.1)),
                            None => dec_names(s0, cnt as nat) is None,
                        }
                    })) by {
                        assert(dec_blob16(b@.skip(opos as int))
                            == Some((namev, b@.skip(p3 as int))));
                        match dec_names(b@.skip(p3 as int), (cnt - k) as nat) {
                            Some(qr) => {
                                assert(dec_names(b@.skip(opos as int), (cnt - k + 1) as nat)
                                    == Some((seq![namev] + qr.0, qr.1)));
                                assert(rawv_old + (seq![namev] + qr.0) =~= rawv + qr.0);
                            },
                            None => {
                                assert(dec_names(b@.skip(opos as int), (cnt - k + 1) as nat)
                                    is None);
                            },
                        }
                    }
                }
            },
        }
    }
    proof {
        let rawv = raw@.map_values(|n: Vec<u8>| n@);
        assert(dec_names(b@.skip(pos2 as int), 0) == Some((Seq::<Seq<u8>>::empty(),
            b@.skip(pos2 as int))));
        assert(rawv + Seq::<Seq<u8>>::empty() =~= rawv);
        assert(dec_names(s0, cnt as nat) == Some((rawv, b@.skip(pos2 as int))));
    }
    if !sorted_ok {
        proof {
            let rawv = raw@.map_values(|n: Vec<u8>| n@);
            if sorted_strict(rawv) {
                assert(crate::order::adjacent_sorted(rawv)) by {
                    assert forall|i: int| 0 <= i < rawv.len() - 1
                        implies crate::order::lex_lt(#[trigger] rawv[i], rawv[i + 1]) by {
                        assert(crate::order::lex_lt(rawv[i], rawv[i + 1]));
                    }
                }
            }
        }
        return None;
    }
    proof {
        crate::order::lemma_adjacent_sorted(raw@.map_values(|n: Vec<u8>| n@));
    }
    let names = crate::nameset::NameSet::from_sorted(raw);
    Some((names, pos2))
}

/// Reads one request off the wire; only the canonical encoding of a
/// well-formed request is accepted.
pub fn decode_request(bytes: &Vec<u8>) -> (r: Option<Request>)
    ensures
        match r {
            Some(req) => req.wf() && dec_req(bytes@) == Some(req@),
            None => dec_req(bytes@) is None,
        },
{
    proof {
        assert(bytes@.skip(0) =~= bytes@);
        lemma_pow256_vals();
    }
    let blen = bytes.len();
    let tp = match read_le(bytes, 0, 2) {
        None => {
            return None;
        },
        Some(x) => x,
    };
    let tag = tp.0;
    let pos0 = tp.1;
    proof {
        assert(bytes@.take(2) == bytes@.skip(0).take(2));
        assert(bytes@.skip(pos0 as int) =~= bytes@.skip(0).skip(2));
        assert(dec_uint(bytes@, 2) == Some((tag as nat, bytes@.skip(pos0 as int))));
    }
    if tag == TAG_USE as u64 {
        match read_blob16(bytes, pos0) {
            Some(tp2) => {
                if tp2.1 == blen {
                    proof {
                        assert(bytes@.skip(tp2.1 as int).len() == 0);
                    }
                    Some(Request::Use(tp2.0))
                } else {
                    proof {
                        assert(bytes@.skip(tp2.1 as int).len() != 0);
                    }
                    None
                }
            },
            None => None,
        }
    } else if tag == TAG_TABLES as u64 {
        if pos0 == blen {
            proof {
                assert(bytes@.skip(pos0 as int).len() == 0);
            }
            Some(Request::Tables)
        } else {
            proof {
                assert(bytes@.skip(pos0 as int).len() != 0);
            }
            None
        }
    } else if tag == TAG_COUNT as u64 {
        match read_blob16(bytes, pos0) {
            Some(tp2) => {
                if tp2.1 == blen {
                    proof {
                        assert(bytes@.skip(tp2.1 as int).len() == 0);
                    }
                    Some(Request::Count(tp2.0))
                } else {
                    proof {
                        assert(bytes@.skip(tp2.1 as int).len() != 0);
                    }
                    None
                }
            },
            None => None,
        }
    } else if tag == TAG_STORE as u64 {
        match read_blob16(bytes, pos0) {
            Some(tp2) => match read_id_raw(bytes, tp2.1) {
                Some(kp) => match read_blob24(bytes, kp.1) {
                    Some(cp) => {
                        if cp.1 == blen {
                            proof {
                                assert(bytes@.skip(cp.1 as int).len() == 0);
                            }
                            Some(Request::Store(StoreReq {
                                table: tp2.0,
                                key: PrimaryKey::from_checked(kp.0),
                                chunk: Chunk::from_checked(cp.0),
                            }))
                        } else {
                            proof {
                                assert(bytes@.skip(cp.1 as int).len() != 0);
                            }
                            None
                        }
                    },
                    None => None,
                },
                None => None,
            },
            None => None,
        }
    } else if tag == TAG_RETRIEVE as u64 {
        match read_blob16(bytes, pos0) {
            Some(tp2) => match read_id_raw(bytes, tp2.1) {
                Some(kp) => {
                    if kp.1 == blen {
                        proof {
                            assert(bytes@.skip(kp.1 as int).len() == 0);
                        }
                        Some(Request::Retrieve(RetrieveReq {
                            table: tp2.0,
                            key: PrimaryKey::from_checked(kp.0),
                        }))
                    } else {
                        proof {
                            assert(bytes@.skip(kp.1 as int).len() != 0);
                        }
                        None
                    }
                },
                None => None,
            },
            None => None,
        }
    } else if tag == TAG_INSERT as u64 {
        match read_blob16(bytes, pos0) {
            Some(tp2) => match read_id_raw(bytes, tp2.1) {
                Some(kp) => match read_id_raw(bytes, kp.1) {
                    Some(ip) => {
                        if ip.1 == blen {
                            proof {
                                assert(bytes@.skip(ip.1 as int).len() == 0);
                            }
                            Some(Request::Insert(InsertReq {
                                table: tp2.0,
                                key: PrimaryKey::from_checked(kp.0),
                                item: ChunkId::from_checked(ip.0),
                            }))
                        } else {
                            proof {
                                assert(bytes@.skip(ip.1 as int).len() != 0);
                            }
                            None
                        }
                    },
                    None => None,
                },
                None => None,
            },
            None => None,
        }
    } else if tag == TAG_LIST_IDS as u64 {
        match read_blob16(bytes, pos0) {
            Some(tp2) => {
                if tp2.1 == blen {
                    proof {
                        assert(bytes@.skip(tp2.1 as int).len() == 0);
                    }
                    Some(Request::ListIds(tp2.0))
                } else {
                    proof {
                        assert(bytes@.skip(tp2.1 as int).len() != 0);
                    }
                    None
                }
            },
            None => None,
        }
    } else if tag == TAG_CHECK_UNKNOWN as u64 {
        match read_blob16(bytes, pos0) {
            Some(tp2) => match read_idseq(bytes, tp2.1) {
                Some(sp) => {
                    if sp.1 == blen {
                        proof {
                            assert(bytes@.skip(sp.1 as int).len() == 0);
                        }
                        Some(Request::CheckUnknown(CheckUnknownReq {
                            table: tp2.0,
                            ids: sp.0,
                        }))
                    } else {
                        proof {
                            assert(bytes@.skip(sp.1 as int).len() != 0);
                        }
                        None
                    }
                },
                None => None,
            },
            None => None,
        }
    } else {
        None
    }
}

/// Reads one reply off the wire; only the canonical encoding of a
/// well-formed reply is accepted.
pub fn decode_reply(bytes: &Vec<u8>) -> (r: Option<Reply>)
    ensures
        match r {
            Some(rep) => rep.wf() && dec_rep(bytes@) == Some(rep@),
            None => dec_rep(bytes@) is None,
        },
{
    proof {
        assert(bytes@.skip(0) =~= bytes@);
        lemma_pow256_vals();
    }
    let blen = bytes.len();
    let tp = match read_le(bytes, 0, 2) {
        None => {
            return None;
        },
        Some(x) => x,
    };
    let tag = tp.0;
    let pos0 = tp.1;
    proof {
        assert(bytes@.take(2) == bytes@.skip(0).take(2));
        assert(bytes@.skip(pos0 as int) =~= bytes@.skip(0).skip(2));
        assert(dec_uint(bytes@, 2) == Some((tag as nat, bytes@.skip(pos0 as int))));
    }
    if tag == TAG_REP_SUCCESS as u64 {
        if pos0 == blen {
            proof {
                assert(bytes@.skip(pos0 as int).len() == 0);
            }
            Some(Reply::Success)
        } else {
            proof {
                assert(bytes@.skip(pos0 as int).len() != 0);
            }
            None
        }
    } else if tag == TAG_REP_FAILURE as u64 {
        match read_le(bytes, pos0, 2) {
            Some(cp) => {
                proof {
                    assert(bytes@.skip(pos0 as int).take(2)
                        == bytes@.skip(pos0 as int).take(2));
                    assert(bytes@.skip(cp.1 as int) =~= bytes@.skip(pos0 as int).skip(2));
                }
                match decode_code(cp.0) {
                    Some(code) => match read_blob16(bytes, cp.1) {
                        Some(ip) => {
                            if ip.1 == blen {
                                proof {
                                    assert(bytes@.skip(ip.1 as int).len() == 0);
                                }
                                Some(Reply::Failure(Failure { code, info: ip.0 }))
                            } else {
                                proof {
                                    assert(bytes@.skip(ip.1 as int).len() != 0);
                                }
                                None
                            }
                        },
                        None => None,
                    },
                    None => None,
                }
            },
            None => None,
        }
    } else if tag == TAG_REP_TABLES as u64 {
        match read_nameseq(bytes, pos0) {
            Some(sp) => {
                if sp.1 == blen {
                    proof {
                        assert(bytes@.skip(sp.1 as int).len() == 0);
                    }
                    Some(Reply::Tables(sp.0))
                } else {
                    proof {
                        assert(bytes@.skip(sp.1 as int).len() != 0);
                    }
                    None
                }
            },
            None => None,
        }
    } else if tag == TAG_REP_COUNT as u64 {
        match read_le(bytes, pos0, 8) {
            Some(cp) => {
                proof {
                    assert(bytes@.skip(cp.1 as int) =~= bytes@.skip(pos0 as int).skip(8));
                }
                if cp.1 == blen {
                    proof {
                        assert(bytes@.skip(cp.1 as int).len() == 0);
                    }
                    Some(Reply::Count(cp.0))
                } else {
                    proof {
                        assert(bytes@.skip(cp.1 as int).len() != 0);
                    }
                    None
                }
            },
            None => None,
        }
    } else if tag == TAG_REP_CHUNK_ID as u64 {
        match read_id_raw(bytes, pos0) {
            Some(ip) => {
                if ip.1 == blen {
                    proof {
                        assert(bytes@.skip(ip.1 as int).len() == 0);
                    }
                    Some(Reply::ChunkId(ChunkId::from_checked(ip.0)))
                } else {
                    proof {
                        assert(bytes@.skip(ip.1 as int).len() != 0);
                    }
                    None
                }
            },
            None => None,
        }
    } else if tag == TAG_REP_CHUNK as u64 {
        match read_blob24(bytes, pos0) {
            Some(cp) => {
                if cp.1 == blen {
                    proof {
                        assert(bytes@.skip(cp.1 as int).len() == 0);
                    }
                    Some(Reply::Chunk(Chunk::from_checked(cp.0)))
                } else {
                    proof {
                        assert(bytes@.skip(cp.1 as int).len() != 0);
                    }
                    None
                }
            },
            None => None,
        }
    } else if tag == TAG_REP_IDS as u64 {
        match read_idseq(bytes, pos0) {
            Some(sp) => {
                if sp.1 == blen {
                    proof {
                        assert(bytes@.skip(sp.1 as int).len() == 0);
                    }
                    Some(Reply::Ids(sp.0))
                } else {
                    proof {
                        assert(bytes@.skip(sp.1 as int).len() != 0);
                    }
                    None
                }
            },
            None => None,
        }
    } else if tag == TAG_REP_KEY_ABSENT as u64 {
        match read_id_raw(bytes, pos0) {
            Some(kp) => {
                if kp.1 == blen {
                    proof {
                        assert(bytes@.skip(kp.1 as int).len() == 0);
                    }
                    Some(Reply::KeyAbsent(PrimaryKey::from_checked(kp.0)))
                } else {
                    proof {
                        assert(bytes@.skip(kp.1 as int).len() != 0);
                    }
                    None
                }
            },
            None => None,
        }
    } else {
        None
    }
}

} // verus!

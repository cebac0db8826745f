//! Wire format shared by the sorted tables and the write-ahead log.
//!
//! Every integer is little-endian.  An entry is framed as
//! `key_len:u32 key_bytes val_len:u32 val_bytes`, where the value length
//! `0xFFFF_FFFF` marks a tombstone carrying no value bytes.  The log
//! prefixes each record with an opcode byte instead, because it mixes
//! operations.  Keys and values are UTF-8 strings.
use vstd::bytes::spec_u32_from_le_bytes;
use vstd::bytes::spec_u32_to_le_bytes;
use vstd::bytes::spec_u64_from_le_bytes;
use vstd::bytes::spec_u64_to_le_bytes;
use vstd::bytes::u32_from_le_bytes;
use vstd::bytes::u32_to_le_bytes;
use vstd::bytes::u64_from_le_bytes;
use vstd::bytes::u64_to_le_bytes;
use vstd::prelude::*;
use vstd::slice::slice_subrange;
use vstd::slice::slice_to_vec;
use vstd::utf8::decode_utf8;
use vstd::utf8::encode_utf8;
use vstd::utf8::encode_utf8_decode_utf8;
use vstd::utf8::valid_utf8;

use crate::model::EntryModel;

verus! {

/// Value-length word that marks a tombstone.
pub const TOMBSTONE: u32 = 0xFFFF_FFFF;

/// Log opcode of an insertion record.
pub const OP_SET: u8 = 1;

/// Log opcode of a deletion record.
pub const OP_DEL: u8 = 2;

/// The model of an owned entry: views of its key and optional value.
pub open spec fn entry_view(e: (String, Option<String>)) -> EntryModel {
    (
        e.0@,
        match e.1 {
            Some(v) => Some(v@),
            None => None,
        },
    )
}

/// The model of a run of owned entries.
pub open spec fn entries_view(es: Seq<(String, Option<String>)>) -> Seq<EntryModel> {
    es.map_values(|e: (String, Option<String>)| entry_view(e))
}

/// The key or value fits the 32-bit length fields; a value must stay
/// below the tombstone marker.
pub open spec fn entry_enc_ok(e: EntryModel) -> bool {
    &&& encode_utf8(e.0).len() <= 0xFFFF_FFFF
    &&& match e.1 {
        Some(v) => encode_utf8(v).len() < 0xFFFF_FFFF,
        None => true,
    }
}

pub open spec fn entries_enc_ok(es: Seq<EntryModel>) -> bool {
    forall|i: int| 0 <= i < es.len() ==> entry_enc_ok(#[trigger] es[i])
}

/// Frame one entry.
pub open spec fn enc_entry(e: EntryModel) -> Seq<u8> {
    let kb = encode_utf8(e.0);
    match e.1 {
        Some(v) => {
            let vb = encode_utf8(v);
            spec_u32_to_le_bytes(kb.len() as u32) + kb + spec_u32_to_le_bytes(vb.len() as u32) + vb
        },
        None => spec_u32_to_le_bytes(kb.len() as u32) + kb + spec_u32_to_le_bytes(TOMBSTONE),
    }
}

/// Frame a run of entries back to back.
pub open spec fn enc_entries(es: Seq<EntryModel>) -> Seq<u8>
    decreases es.len(),
{
    if es.len() == 0 {
        seq![]
    } else {
        enc_entry(es[0]) + enc_entries(es.drop_first())
    }
}

/// Byte offset of entry `p` inside the framed run.
pub open spec fn entry_offset(es: Seq<EntryModel>, p: int) -> int {
    enc_entries(es.take(p)).len() as int
}

/// Decode a run of entries, requiring the whole buffer to be consumed.
pub open spec fn parse_entries(b: Seq<u8>) -> Option<Seq<EntryModel>>
    decreases b.len(),
{
    if b.len() == 0 {
        Some(seq![])
    } else if b.len() < 4 {
        None
    } else {
        let klen = spec_u32_from_le_bytes(b.subrange(0, 4)) as int;
        if 4 + klen + 4 > b.len() {
            None
        } else {
            let kb = b.subrange(4, 4 + klen);
            let marker = spec_u32_from_le_bytes(b.subrange(4 + klen, 8 + klen));
            if !valid_utf8(kb) {
                None
            } else if marker == TOMBSTONE {
                match parse_entries(b.skip(8 + klen)) {
                    Some(rest) => Some(seq![(decode_utf8(kb), None)] + rest),
                    None => None,
                }
            } else {
                let vlen = marker as int;
                if 8 + klen + vlen > b.len() {
                    None
                } else {
                    let vb = b.subrange(8 + klen, 8 + klen + vlen);
                    if !valid_utf8(vb) {
                        None
                    } else {
                        match parse_entries(b.skip(8 + klen + vlen)) {
                            Some(rest) => Some(
                                seq![(decode_utf8(kb), Some(decode_utf8(vb)))] + rest,
                            ),
                            None => None,
                        }
                    }
                }
            }
        }
    }
}

/// Frame one index entry: `key_len:u32 key_bytes offset:u64`.
pub open spec fn enc_index_entry(e: (Seq<char>, u64)) -> Seq<u8> {
    let kb = encode_utf8(e.0);
    spec_u32_to_le_bytes(kb.len() as u32) + kb + spec_u64_to_le_bytes(e.1)
}

pub open spec fn enc_index(idx: Seq<(Seq<char>, u64)>) -> Seq<u8>
    decreases idx.len(),
{
    if idx.len() == 0 {
        seq![]
    } else {
        enc_index_entry(idx[0]) + enc_index(idx.drop_first())
    }
}

pub open spec fn index_entry_enc_ok(e: (Seq<char>, u64)) -> bool {
    encode_utf8(e.0).len() <= 0xFFFF_FFFF
}

pub open spec fn index_enc_ok(idx: Seq<(Seq<char>, u64)>) -> bool {
    forall|i: int| 0 <= i < idx.len() ==> index_entry_enc_ok(#[trigger] idx[i])
}

/// Decode an index region, requiring the whole buffer to be consumed.
pub open spec fn parse_index(b: Seq<u8>) -> Option<Seq<(Seq<char>, u64)>>
    decreases b.len(),
{
    if b.len() == 0 {
        Some(seq![])
    } else if b.len() < 4 {
        None
    } else {
        let klen = spec_u32_from_le_bytes(b.subrange(0, 4)) as int;
        if 4 + klen + 8 > b.len() {
            None
        } else {
            let kb = b.subrange(4, 4 + klen);
            let off = spec_u64_from_le_bytes(b.subrange(4 + klen, 12 + klen));
            if !valid_utf8(kb) {
                None
            } else {
                match parse_index(b.skip(12 + klen)) {
                    Some(rest) => Some(seq![(decode_utf8(kb), off)] + rest),
                    None => None,
                }
            }
        }
    }
}

/// Frame one log record: an opcode byte, then the key, then for an
/// insertion the value.
pub open spec fn enc_wal_op(e: EntryModel) -> Seq<u8> {
    let kb = encode_utf8(e.0);
    match e.1 {
        Some(v) => {
            let vb = encode_utf8(v);
            seq![OP_SET] + spec_u32_to_le_bytes(kb.len() as u32) + kb + spec_u32_to_le_bytes(
                vb.len() as u32,
            ) + vb
        },
        None => seq![OP_DEL] + spec_u32_to_le_bytes(kb.len() as u32) + kb,
    }
}

pub open spec fn enc_wal(ops: Seq<EntryModel>) -> Seq<u8>
    decreases ops.len(),
{
    if ops.len() == 0 {
        seq![]
    } else {
        enc_wal_op(ops[0]) + enc_wal(ops.drop_first())
    }
}

/// Replay a log image: the operations of its well-formed prefix, in log
/// order.  A truncated or malformed tail is dropped.
pub open spec fn parse_wal(b: Seq<u8>) -> Seq<EntryModel>
    decreases b.len(),
{
    if b.len() < 5 {
        seq![]
    } else {
        let op = b[0];
        let klen = spec_u32_from_le_bytes(b.subrange(1, 5)) as int;
        if op == OP_DEL {
            if 5 + klen > b.len() {
                seq![]
            } else {
                let kb = b.subrange(5, 5 + klen);
                if !valid_utf8(kb) {
                    seq![]
                } else {
                    seq![(decode_utf8(kb), None)] + parse_wal(b.skip(5 + klen))
                }
            }
        } else if op == OP_SET {
            if 5 + klen + 4 > b.len() {
                seq![]
            } else {
                let kb = b.subrange(5, 5 + klen);
                let vlen = spec_u32_from_le_bytes(b.subrange(5 + klen, 9 + klen)) as int;
                if vlen == TOMBSTONE || 9 + klen + vlen > b.len() {
                    seq![]
                } else {
                    let vb = b.subrange(9 + klen, 9 + klen + vlen);
                    if !valid_utf8(kb) || !valid_utf8(vb) {
                        seq![]
                    } else {
                        seq![(decode_utf8(kb), Some(decode_utf8(vb)))] + parse_wal(
                            b.skip(9 + klen + vlen),
                        )
                    }
                }
            }
        } else {
            seq![]
        }
    }
}

/// Append the little-endian bytes of a 32-bit length or marker.
pub fn push_u32(buf: &mut Vec<u8>, x: u32)
    ensures
        final(buf)@ == old(buf)@ + spec_u32_to_le_bytes(x),
{
    let b = u32_to_le_bytes(x);
    buf.extend_from_slice(b.as_slice());
}

/// Append the little-endian bytes of a 64-bit offset.
pub fn push_u64(buf: &mut Vec<u8>, x: u64)
    ensures
        final(buf)@ == old(buf)@ + spec_u64_to_le_bytes(x),
{
    let b = u64_to_le_bytes(x);
    buf.extend_from_slice(b.as_slice());
}

/// Append the UTF-8 bytes of a string.
pub fn push_str_bytes(buf: &mut Vec<u8>, s: &str)
    ensures
        final(buf)@ == old(buf)@ + encode_utf8(s@),
{
    buf.extend_from_slice(s.as_bytes());
}

/// Read a 32-bit little-endian word.
pub fn read_u32(b: &[u8], pos: usize) -> (r: u32)
    requires
        pos + 4 <= b@.len(),
    ensures
        r == spec_u32_from_le_bytes(b@.subrange(pos as int, pos as int + 4)),
{
    let n = b.len();
    assert(pos + 4 <= n);
    let s = slice_subrange(b, pos, pos + 4);
    u32_from_le_bytes(s)
}

/// Read a 64-bit little-endian word.
pub fn read_u64(b: &[u8], pos: usize) -> (r: u64)
    requires
        pos + 8 <= b@.len(),
    ensures
        r == spec_u64_from_le_bytes(b@.subrange(pos as int, pos as int + 8)),
{
    let n = b.len();
    assert(pos + 8 <= n);
    let s = slice_subrange(b, pos, pos + 8);
    u64_from_le_bytes(s)
}

/// Relies on `String::from_utf8`: it returns a string holding exactly the
/// given bytes when they are valid UTF-8, and its error value otherwise.
#[verifier::external_body]
pub fn string_from_bytes(v: Vec<u8>) -> (r: Option<String>)
    ensures
        r is Some <==> valid_utf8(v@),
        match r {
            Some(s) => encode_utf8(s@) == v@,
            None => true,
        },
{
    String::from_utf8(v).ok()
}

/// Decode the given range of the buffer as a UTF-8 string.
pub fn read_str(b: &[u8], pos: usize, len: usize) -> (r: Option<String>)
    requires
        pos + len <= b@.len(),
    ensures
        (r is Some <==> valid_utf8(b@.subrange(pos as int, pos as int + len as int))),
        match r {
            Some(s) => {
                &&& encode_utf8(s@) == b@.subrange(pos as int, pos as int + len as int)
                &&& s@ == decode_utf8(b@.subrange(pos as int, pos as int + len as int))
            },
            None => true,
        },
{
    let n = b.len();
    assert(pos + len <= n);
    let s = slice_subrange(b, pos, pos + len);
    let v = slice_to_vec(s);
    let r = string_from_bytes(v);
    proof {
        let sub = b@.subrange(pos as int, pos as int + len as int);
        if r is Some {
            let st = r->0;
            assert(encode_utf8(st@) == sub);
            encode_utf8_decode_utf8(st@);
        }
    }
    r
}


/// Framing distributes over concatenation of runs.
pub proof fn lemma_enc_entries_concat(a: Seq<EntryModel>, b: Seq<EntryModel>)
    ensures
        enc_entries(a + b) == enc_entries(a) + enc_entries(b),
    decreases a.len(),
{
    if a.len() == 0 {
        assert(a + b =~= b);
        assert(enc_entries(a) + enc_entries(b) =~= enc_entries(b));
    } else {
        assert((a + b).drop_first() =~= a.drop_first() + b);
        lemma_enc_entries_concat(a.drop_first(), b);
        assert(enc_entries(a + b) =~= enc_entries(a) + enc_entries(b)) by {
            assert((a + b)[0] == a[0]);
            assert(enc_entries(a + b) == enc_entry(a[0]) + (enc_entries(a.drop_first())
                + enc_entries(b)));
        }
    }
}

/// Log framing distributes over appending one operation.
pub proof fn lemma_enc_wal_snoc(ops: Seq<EntryModel>, e: EntryModel)
    ensures
        enc_wal(ops.push(e)) == enc_wal(ops) + enc_wal_op(e),
    decreases ops.len(),
{
    if ops.len() == 0 {
        assert(ops.push(e)[0] == e);
        assert(ops.push(e).drop_first() =~= Seq::<EntryModel>::empty());
        assert(enc_wal(Seq::<EntryModel>::empty()) == Seq::<u8>::empty());
        assert(enc_wal(ops.push(e)) =~= enc_wal_op(e));
        assert(enc_wal(ops) + enc_wal_op(e) =~= enc_wal_op(e));
    } else {
        assert(ops.push(e)[0] == ops[0]);
        assert(ops.push(e).drop_first() =~= ops.drop_first().push(e));
        lemma_enc_wal_snoc(ops.drop_first(), e);
        assert(enc_wal(ops.push(e)) =~= enc_wal(ops) + enc_wal_op(e));
    }
}

/// A framed run followed by any parseable bytes decodes to the run
/// followed by whatever the rest decodes to.
#[verifier::rlimit(50)]
pub proof fn lemma_parse_enc_entries(es: Seq<EntryModel>, tail: Seq<u8>)
    requires
        entries_enc_ok(es),
        parse_entries(tail) is Some,
    ensures
        parse_entries(enc_entries(es) + tail) == match parse_entries(tail) {
            Some(r) => Some(es + r),
            None => None::<Seq<EntryModel>>,
        },
    decreases es.len(),
{
    vstd::bytes::lemma_auto_spec_u32_to_from_le_bytes();
    let r = parse_entries(tail)->0;
    if es.len() == 0 {
        assert(enc_entries(es) + tail =~= tail);
        assert(es + r =~= r);
    } else {
        let e = es[0];
        let rest = es.drop_first();
        assert(entries_enc_ok(rest));
        lemma_parse_enc_entries(rest, tail);
        let after = enc_entries(rest) + tail;
        let b = enc_entries(es) + tail;
        let kb = encode_utf8(e.0);
        let klen = kb.len() as int;
        vstd::utf8::encode_utf8_valid_utf8(e.0);
        encode_utf8_decode_utf8(e.0);
        match e.1 {
            Some(v) => {
                let vb = encode_utf8(v);
                let vlen = vb.len() as int;
                vstd::utf8::encode_utf8_valid_utf8(v);
                encode_utf8_decode_utf8(v);
                let hk = spec_u32_to_le_bytes(kb.len() as u32);
                let hv = spec_u32_to_le_bytes(vb.len() as u32);
                assert(b =~= hk + kb + hv + vb + after);
                assert(b.len() == 8 + klen + vlen + after.len());
                assert(b.subrange(0, 4) =~= hk);
                assert(spec_u32_from_le_bytes(b.subrange(0, 4)) as int == klen);
                assert(b.subrange(4, 4 + klen) =~= kb);
                assert(b.subrange(4 + klen, 8 + klen) =~= hv);
                assert(spec_u32_from_le_bytes(b.subrange(4 + klen, 8 + klen)) == vb.len() as u32);
                assert(vb.len() as u32 != TOMBSTONE);
                assert(b.subrange(8 + klen, 8 + klen + vlen) =~= vb);
                assert(b.skip(8 + klen + vlen) =~= after);
                assert(parse_entries(b) == Some(seq![(e.0, Some(v))] + (rest + r)));
                assert(seq![(e.0, Some(v))] + (rest + r) =~= es + r);
            },
            None => {
                let hk = spec_u32_to_le_bytes(kb.len() as u32);
                let hv = spec_u32_to_le_bytes(TOMBSTONE);
                assert(b =~= hk + kb + hv + after);
                assert(b.len() == 8 + klen + after.len());
                assert(b.subrange(0, 4) =~= hk);
                assert(spec_u32_from_le_bytes(b.subrange(0, 4)) as int == klen);
                assert(b.subrange(4, 4 + klen) =~= kb);
                assert(b.subrange(4 + klen, 8 + klen) =~= hv);
                assert(spec_u32_from_le_bytes(b.subrange(4 + klen, 8 + klen)) == TOMBSTONE);
                assert(b.skip(8 + klen) =~= after);
                assert(parse_entries(b) == Some(seq![(e.0, None)] + (rest + r)));
                assert(seq![(e.0, None)] + (rest + r) =~= es + r);
            },
        }
    }
}

/// A framed index region decodes back to the index.
pub proof fn lemma_parse_enc_index(idx: Seq<(Seq<char>, u64)>, tail: Seq<u8>)
    requires
        index_enc_ok(idx),
        parse_index(tail) is Some,
    ensures
        parse_index(enc_index(idx) + tail) == match parse_index(tail) {
            Some(r) => Some(idx + r),
            None => None::<Seq<(Seq<char>, u64)>>,
        },
    decreases idx.len(),
{
    vstd::bytes::lemma_auto_spec_u32_to_from_le_bytes();
    vstd::bytes::lemma_auto_spec_u64_to_from_le_bytes();
    let r = parse_index(tail)->0;
    if idx.len() == 0 {
        assert(enc_index(idx) + tail =~= tail);
        assert(idx + r =~= r);
    } else {
        let e = idx[0];
        let rest = idx.drop_first();
        assert(index_enc_ok(rest));
        lemma_parse_enc_index(rest, tail);
        let after = enc_index(rest) + tail;
        let b = enc_index(idx) + tail;
        let kb = encode_utf8(e.0);
        let klen = kb.len() as int;
        vstd::utf8::encode_utf8_valid_utf8(e.0);
        encode_utf8_decode_utf8(e.0);
        let hk = spec_u32_to_le_bytes(kb.len() as u32);
        let ho = spec_u64_to_le_bytes(e.1);
        assert(b =~= hk + kb + ho + after);
        assert(b.len() == 12 + klen + after.len());
        assert(b.subrange(0, 4) =~= hk);
        assert(spec_u32_from_le_bytes(b.subrange(0, 4)) as int == klen);
        assert(b.subrange(4, 4 + klen) =~= kb);
        assert(b.subrange(4 + klen, 12 + klen) =~= ho);
        assert(spec_u64_from_le_bytes(b.subrange(4 + klen, 12 + klen)) == e.1);
        assert(b.skip(12 + klen) =~= after);
        assert(parse_index(b) == Some(seq![(e.0, e.1)] + (rest + r)));
        assert(seq![(e.0, e.1)] + (rest + r) =~= idx + r);
    }
}

/// A framed log decodes to its operations followed by whatever the
/// remaining bytes replay to.
#[verifier::rlimit(50)]
pub proof fn lemma_parse_enc_wal(ops: Seq<EntryModel>, tail: Seq<u8>)
    requires
        entries_enc_ok(ops),
    ensures
        parse_wal(enc_wal(ops) + tail) == ops + parse_wal(tail),
    decreases ops.len(),
{
    vstd::bytes::lemma_auto_spec_u32_to_from_le_bytes();
    let r = parse_wal(tail);
    if ops.len() == 0 {
        assert(enc_wal(ops) + tail =~= tail);
        assert(ops + r =~= r);
    } else {
        let e = ops[0];
        let rest = ops.drop_first();
        assert(entries_enc_ok(rest));
        lemma_parse_enc_wal(rest, tail);
        let after = enc_wal(rest) + tail;
        let b = enc_wal(ops) + tail;
        let kb = encode_utf8(e.0);
        let klen = kb.len() as int;
        vstd::utf8::encode_utf8_valid_utf8(e.0);
        encode_utf8_decode_utf8(e.0);
        let hk = spec_u32_to_le_bytes(kb.len() as u32);
        match e.1 {
            Some(v) => {
                let vb = encode_utf8(v);
                let vlen = vb.len() as int;
                vstd::utf8::encode_utf8_valid_utf8(v);
                encode_utf8_decode_utf8(v);
                let hv = spec_u32_to_le_bytes(vb.len() as u32);
                assert(b =~= seq![OP_SET] + hk + kb + hv + vb + after);
                assert(b.len() == 9 + klen + vlen + after.len());
                assert(b[0] == OP_SET);
                assert(b.subrange(1, 5) =~= hk);
                assert(spec_u32_from_le_bytes(b.subrange(1, 5)) as int == klen);
                assert(b.subrange(5, 5 + klen) =~= kb);
                assert(b.subrange(5 + klen, 9 + klen) =~= hv);
                assert(spec_u32_from_le_bytes(b.subrange(5 + klen, 9 + klen)) as int == vlen);
                assert(b.subrange(9 + klen, 9 + klen + vlen) =~= vb);
                assert(b.skip(9 + klen + vlen) =~= after);
                assert(parse_wal(after) == rest + r);
                assert(decode_utf8(b.subrange(5, 5 + klen)) == e.0);
                assert(decode_utf8(b.subrange(9 + klen, 9 + klen + vlen)) == v);
                assert(parse_wal(b) == seq![(e.0, Some(v))] + (rest + r));
                assert(seq![(e.0, Some(v))] + (rest + r) =~= ops + r);
            },
            None => {
                assert(b =~= seq![OP_DEL] + hk + kb + after);
                assert(b.len() == 5 + klen + after.len());
                assert(b[0] == OP_DEL);
                assert(b.subrange(1, 5) =~= hk);
                assert(spec_u32_from_le_bytes(b.subrange(1, 5)) as int == klen);
                assert(b.subrange(5, 5 + klen) =~= kb);
                assert(b.skip(5 + klen) =~= after);
                assert(parse_wal(b) == seq![(e.0, None)] + (rest + r));
                assert(seq![(e.0, None)] + (rest + r) =~= ops + r);
            },
        }
    }
}


/// Index framing distributes over concatenation.
pub proof fn lemma_enc_index_concat(a: Seq<(Seq<char>, u64)>, b: Seq<(Seq<char>, u64)>)
    ensures
        enc_index(a + b) == enc_index(a) + enc_index(b),
    decreases a.len(),
{
    if a.len() == 0 {
        assert(a + b =~= b);
        assert(enc_index(a) + enc_index(b) =~= enc_index(b));
    } else {
        assert((a + b).drop_first() =~= a.drop_first() + b);
        lemma_enc_index_concat(a.drop_first(), b);
        assert(enc_index(a + b) =~= enc_index(a) + enc_index(b)) by {
            assert((a + b)[0] == a[0]);
            assert(enc_index(a + b) == enc_index_entry(a[0]) + (enc_index(a.drop_first())
                + enc_index(b)));
        }
    }
}

} // verus!



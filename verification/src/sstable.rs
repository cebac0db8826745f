//! Immutable sorted tables.
//!
//! A table file holds three regions: packed data blocks of framed entries,
//! an index with one `(first key of block, block offset)` pair per block,
//! and an eight-byte footer holding the offset at which the index begins.
//! `parse_table` is the meaning of such a file; the builder produces bytes
//! that parse, and the reader accepts exactly the bytes that parse.
use vstd::bytes::spec_u64_from_le_bytes;
use vstd::prelude::*;
use vstd::utf8::decode_utf8_encode_utf8;
use vstd::utf8::encode_utf8;

use crate::codec::enc_entries;
use crate::codec::entries_enc_ok;
use crate::codec::entry_offset;
use crate::codec::parse_entries;
use crate::codec::parse_index;
use crate::codec::TOMBSTONE;
use crate::model::entries_sorted;
use crate::model::EntryModel;
use crate::order::key_lt;

pub mod builder;
pub mod reader;

pub use builder::SSTableBuilder;
pub use reader::SSTableIterator;
pub use reader::SSTableReader;
pub use reader::SearchResult;

verus! {

/// Target size of a data block, in bytes.  A single oversized entry may
/// form a larger block on its own.
pub const BLOCK_SIZE: usize = 4096;

/// The table model: its entries in file order and its block index.
pub ghost struct TableModel {
    pub entries: Seq<EntryModel>,
    pub index: Seq<(Seq<char>, u64)>,
}

/// The anchors, resolved to the entry positions `ps`, cut the run into
/// blocks: consecutive anchors span at most `BLOCK_SIZE` bytes unless
/// the block holds a single oversized entry, and so does the span from
/// the last anchor to the end of the data region.
pub open spec fn blocks_sized(
    es: Seq<EntryModel>,
    idx: Seq<(Seq<char>, u64)>,
    ps: Seq<int>,
) -> bool {
    &&& ps.len() == idx.len()
    &&& (forall|i: int|
        0 <= i < ps.len() ==> 0 <= #[trigger] ps[i] < es.len() && idx[i].0 == es[ps[i]].0
            && idx[i].1 as int == entry_offset(es, ps[i]))
    &&& (forall|i: int, j: int| 0 <= i < j < ps.len() ==> #[trigger] ps[i] < #[trigger] ps[j])
    &&& (forall|i: int|
        0 <= i < ps.len() - 1 ==> entry_offset(es, ps[i + 1]) - entry_offset(
            es,
            #[trigger] ps[i],
        ) <= BLOCK_SIZE || ps[i + 1] == ps[i] + 1)
    &&& (ps.len() > 0 ==> enc_entries(es).len() - entry_offset(es, ps.last()) <= BLOCK_SIZE
        || es.len() == ps.last() + 1)
}

/// Some resolution of the anchors witnesses the block sizing.
pub open spec fn index_blocks_sized(es: Seq<EntryModel>, idx: Seq<(Seq<char>, u64)>) -> bool {
    exists|ps: Seq<int>| #[trigger] blocks_sized(es, idx, ps)
}

/// Index keys strictly ascend.
pub open spec fn index_sorted(idx: Seq<(Seq<char>, u64)>) -> bool {
    forall|i: int, j: int|
        0 <= i < j < idx.len() ==> key_lt(#[trigger] idx[i].0, #[trigger] idx[j].0)
}

/// The anchor names an entry of the run and carries that entry's byte
/// offset in the data region.
pub open spec fn anchor_ok(es: Seq<EntryModel>, a: (Seq<char>, u64)) -> bool {
    exists|p: int|
        0 <= p < es.len() && a.0 == (#[trigger] es[p]).0 && a.1 as int == entry_offset(es, p)
}

pub open spec fn index_anchors_ok(es: Seq<EntryModel>, idx: Seq<(Seq<char>, u64)>) -> bool {
    forall|i: int| 0 <= i < idx.len() ==> anchor_ok(es, #[trigger] idx[i])
}

/// What a decoded table must satisfy: sorted unique keys, a sorted index
/// whose anchors sit on entry boundaries, and, when there is any entry at
/// all, a first anchor at the first entry.
pub open spec fn table_shape_ok(es: Seq<EntryModel>, idx: Seq<(Seq<char>, u64)>) -> bool {
    &&& entries_sorted(es)
    &&& index_sorted(idx)
    &&& index_anchors_ok(es, idx)
    &&& (es.len() > 0 ==> idx.len() > 0 && idx[0].0 == es[0].0 && idx[0].1 == 0)
}

/// The meaning of a table file: footer, index region, data region, and
/// the shape conditions.
pub open spec fn parse_table(b: Seq<u8>) -> Option<TableModel> {
    if b.len() < 8 {
        None
    } else {
        let idx_off = spec_u64_from_le_bytes(b.subrange(b.len() - 8, b.len() as int)) as int;
        if idx_off > b.len() - 8 {
            None
        } else {
            let data = b.subrange(0, idx_off);
            let idxb = b.subrange(idx_off, b.len() - 8);
            match (parse_entries(data), parse_index(idxb)) {
                (Some(es), Some(idx)) => if table_shape_ok(es, idx) {
                    Some(TableModel { entries: es, index: idx })
                } else {
                    None
                },
                _ => None,
            }
        }
    }
}

/// Whatever decodes as a run of entries fits the length fields.
pub proof fn lemma_parse_entries_enc_ok(b: Seq<u8>)
    requires
        parse_entries(b) is Some,
    ensures
        entries_enc_ok(parse_entries(b)->0),
    decreases b.len(),
{
    let es = parse_entries(b)->0;
    if b.len() == 0 {
    } else {
        let klen = vstd::bytes::spec_u32_from_le_bytes(b.subrange(0, 4)) as int;
        let kb = b.subrange(4, 4 + klen);
        let marker = vstd::bytes::spec_u32_from_le_bytes(b.subrange(4 + klen, 8 + klen));
        decode_utf8_encode_utf8(kb);
        if marker == TOMBSTONE {
            let tail = b.skip(8 + klen);
            lemma_parse_entries_enc_ok(tail);
            let rest = parse_entries(tail)->0;
            assert(es == seq![(vstd::utf8::decode_utf8(kb), None::<Seq<char>>)] + rest);
            assert(encode_utf8(es[0].0) == kb);
            assert forall|i: int| 0 <= i < es.len() implies crate::codec::entry_enc_ok(
                #[trigger] es[i],
            ) by {
                if i > 0 {
                    assert(es[i] == rest[i - 1]);
                }
            }
        } else {
            let vlen = marker as int;
            let vb = b.subrange(8 + klen, 8 + klen + vlen);
            decode_utf8_encode_utf8(vb);
            let tail = b.skip(8 + klen + vlen);
            lemma_parse_entries_enc_ok(tail);
            let rest = parse_entries(tail)->0;
            assert(es == seq![
                (vstd::utf8::decode_utf8(kb), Some(vstd::utf8::decode_utf8(vb))),
            ] + rest);
            assert(encode_utf8(es[0].0) == kb);
            assert(marker != TOMBSTONE);
            assert(vlen < 0xFFFF_FFFF);
            assert forall|i: int| 0 <= i < es.len() implies crate::codec::entry_enc_ok(
                #[trigger] es[i],
            ) by {
                if i > 0 {
                    assert(es[i] == rest[i - 1]);
                }
            }
        }
    }
}

} // verus!

//! Builder of an immutable sorted table.
//!
//! The caller feeds entries in strictly ascending key order.  Entries are
//! packed into a block buffer; when an entry would push the buffer past
//! the target block size the buffer is sealed first, and the new block's
//! first key is recorded in the index.  `finish` seals the last block,
//! appends the index region and the footer, and hands back the file image.
use vstd::prelude::*;
use vstd::utf8::encode_utf8;

use crate::codec::enc_entries;
use crate::codec::enc_entry;
use crate::codec::enc_index;
use crate::codec::enc_index_entry;
use crate::codec::entries_enc_ok;
use crate::codec::entry_offset;
use crate::codec::index_enc_ok;
use crate::codec::lemma_enc_entries_concat;
use crate::codec::lemma_parse_enc_entries;
use crate::codec::lemma_parse_enc_index;
use crate::codec::parse_entries;
use crate::codec::parse_index;
use crate::codec::push_str_bytes;
use crate::codec::push_u32;
use crate::codec::push_u64;
use crate::codec::TOMBSTONE;
use crate::model::entries_sorted;
use crate::model::EntryModel;
use crate::order::key_lt;
use crate::order::lemma_key_lt_trans;
use crate::sstable::anchor_ok;
use crate::sstable::index_sorted;
use crate::sstable::parse_table;
use crate::sstable::TableModel;
use crate::sstable::BLOCK_SIZE;

verus! {

/// The largest number of bytes one framed entry can take.
pub const MAX_ENTRY_BYTES: u64 = 0x2_0000_0005;

/// Streaming writer of a sorted table file image.
pub struct SSTableBuilder {
    data: Vec<u8>,
    block_buffer: Vec<u8>,
    index: Vec<(String, u64)>,
    first_key_in_block: Option<String>,
    entries_g: Ghost<Seq<EntryModel>>,
    flushed_g: Ghost<int>,
    anchors_g: Ghost<Seq<int>>,
}

impl SSTableBuilder {
    /// The entries fed so far, in order.
    pub closed spec fn entries(self) -> Seq<EntryModel> {
        self.entries_g@
    }

    spec fn index_view(self) -> Seq<(Seq<char>, u64)> {
        self.index@.map_values(|a: (String, u64)| (a.0@, a.1))
    }

    /// The internal representation invariant.
    pub closed spec fn wf(self) -> bool {
        let es = self.entries_g@;
        let m = self.flushed_g@;
        let anchors = self.anchors_g@;
        &&& 0 <= m <= es.len()
        &&& entries_sorted(es)
        &&& entries_enc_ok(es)
        &&& self.data@ == enc_entries(es.take(m))
        &&& self.block_buffer@ == enc_entries(es.skip(m))
        &&& ((m == es.len()) <==> (self.first_key_in_block is None))
        &&& (m < es.len() ==> match self.first_key_in_block {
            Some(s) => s@ == es[m].0,
            None => false,
        })
        &&& self.block_buffer@.len() <= MAX_ENTRY_BYTES
        &&& (self.block_buffer@.len() <= BLOCK_SIZE || es.len() - m == 1)
        &&& anchors.len() == self.index@.len()
        &&& (forall|i: int|
            0 <= i < anchors.len() ==> 0 <= #[trigger] anchors[i] < m && self.index@[i].0@
                == es[anchors[i]].0 && self.index@[i].1 as int == entry_offset(es, anchors[i]))
        &&& (forall|i: int, j: int|
            0 <= i < j < anchors.len() ==> #[trigger] anchors[i] < #[trigger] anchors[j])
        &&& (m > 0 ==> anchors.len() > 0 && anchors[0] == 0)
        &&& (forall|i: int|
            0 <= i < anchors.len() - 1 ==> entry_offset(es, anchors[i + 1]) - entry_offset(
                es,
                #[trigger] anchors[i],
            ) <= BLOCK_SIZE || anchors[i + 1] == anchors[i] + 1)
        &&& (anchors.len() > 0 ==> entry_offset(es, m) - entry_offset(es, anchors.last())
            <= BLOCK_SIZE || m == anchors.last() + 1)
    }

    pub fn new() -> (r: SSTableBuilder)
        ensures
            r.wf(),
            r.entries() == Seq::<EntryModel>::empty(),
    {
        let r = SSTableBuilder {
            data: Vec::new(),
            block_buffer: Vec::new(),
            index: Vec::new(),
            first_key_in_block: None,
            entries_g: Ghost(Seq::empty()),
            flushed_g: Ghost(0),
            anchors_g: Ghost(Seq::empty()),
        };
        proof {
            assert(r.entries_g@.take(0) =~= Seq::<EntryModel>::empty());
            assert(r.entries_g@.skip(0) =~= Seq::<EntryModel>::empty());
        }
        r
    }

    /// A framed entry takes at least eight bytes, so a framed non-empty
    /// run is non-empty.
    proof fn lemma_buffer_empty(self)
        requires
            self.wf(),
            self.block_buffer@.len() == 0,
        ensures
            self.flushed_g@ == self.entries_g@.len(),
    {
        let es = self.entries_g@;
        let m = self.flushed_g@;
        if m < es.len() {
            let suffix = es.skip(m);
            assert(suffix.len() > 0);
            assert(enc_entries(suffix) == enc_entry(suffix[0]) + enc_entries(suffix.drop_first()));
            vstd::bytes::lemma_auto_spec_u32_to_from_le_bytes();
            assert(enc_entry(suffix[0]).len() >= 8);
        }
    }

    /// Seal the current block: record its first key and offset in the
    /// index and move the buffer into the data region.
    fn flush_block(&mut self)
        requires
            old(self).wf(),
        ensures
            final(self).wf(),
            final(self).entries() == old(self).entries(),
            final(self).block_buffer@.len() == 0,
            final(self).flushed_g@ == final(self).entries().len(),
            final(self).first_key_in_block is None,
    {
        if self.block_buffer.len() == 0 {
            proof {
                self.lemma_buffer_empty();
            }
            return ;
        }
        let ghost es = self.entries_g@;
        let ghost m = self.flushed_g@;
        proof {
            if m == es.len() {
                assert(es.skip(m) =~= Seq::<EntryModel>::empty());
            }
            assert(m < es.len());
        }
        let fk = match &self.first_key_in_block {
            Some(s) => s.clone(),
            None => {
                proof {
                    assert(false);
                }
                String::new()
            },
        };
        let off = self.data.len() as u64;
        self.index.push((fk, off));
        let mut buf = Vec::new();
        core::mem::swap(&mut buf, &mut self.block_buffer);
        self.data.append(&mut buf);
        self.first_key_in_block = None;
        proof {
            self.anchors_g@ = self.anchors_g@.push(m);
            self.flushed_g@ = es.len() as int;
        }
        proof {
            lemma_enc_entries_concat(es.take(m), es.skip(m));
            assert(es.take(m) + es.skip(m) =~= es);
            assert(es.take(es.len() as int) =~= es);
            assert(es.skip(es.len() as int) =~= Seq::<EntryModel>::empty());
            assert(self.data@ == enc_entries(es));
            assert(off as int == entry_offset(es, m)) by {
                assert(old(self).data@ == enc_entries(es.take(m)));
            }
            let anchors = self.anchors_g@;
            assert forall|i: int|
                0 <= i < anchors.len() implies 0 <= #[trigger] anchors[i] < self.flushed_g@
                && self.index@[i].0@ == es[anchors[i]].0 && self.index@[i].1 as int == entry_offset(
                es,
                anchors[i],
            ) by {
                if i < anchors.len() - 1 {
                    assert(anchors[i] == old(self).anchors_g@[i]);
                    assert(self.index@[i] == old(self).index@[i]);
                } else {
                    assert(anchors[i] == m);
                    assert(self.index@[i] == (fk, off));
                }
            }
            assert forall|i: int, j: int|
                0 <= i < j < anchors.len() implies #[trigger] anchors[i] < #[trigger] anchors[j] by {
                if j < anchors.len() - 1 {
                    assert(anchors[i] == old(self).anchors_g@[i]);
                    assert(anchors[j] == old(self).anchors_g@[j]);
                } else {
                    assert(anchors[i] == old(self).anchors_g@[i]);
                    assert(anchors[j] == m);
                }
            }
            if self.flushed_g@ > 0 {
                if m > 0 {
                    assert(anchors[0] == old(self).anchors_g@[0]);
                } else {
                    assert(anchors.len() == 1);
                    assert(anchors[0] == 0);
                }
            }
        }
    }

    /// Append a live entry; keys must arrive in strictly ascending order.
    pub fn add(&mut self, key: &str, value: &str)
        requires
            old(self).wf(),
            encode_utf8(key@).len() <= 0xFFFF_FFFF,
            encode_utf8(value@).len() < 0xFFFF_FFFF,
            old(self).entries().len() > 0 ==> key_lt(old(self).entries().last().0, key@),
        ensures
            final(self).wf(),
            final(self).entries() == old(self).entries().push((key@, Some(value@))),
    {
        let entry_size: u64 = 8 + key.len() as u64 + value.len() as u64;
        if self.block_buffer.len() != 0 && self.block_buffer.len() as u64 + entry_size
            > BLOCK_SIZE as u64 {
            self.flush_block();
        }
        let ghost mid = *self;
        let ghost es = self.entries_g@;
        let ghost m = self.flushed_g@;
        if self.first_key_in_block.is_none() {
            self.first_key_in_block = Some(key.to_owned());
        }
        push_u32(&mut self.block_buffer, key.len() as u32);
        push_str_bytes(&mut self.block_buffer, key);
        push_u32(&mut self.block_buffer, value.len() as u32);
        push_str_bytes(&mut self.block_buffer, value);
        proof {
            self.entries_g@ = self.entries_g@.push((key@, Some(value@)));
        }
        proof {
            let e = (key@, Some(value@));
            let es1 = self.entries_g@;
            vstd::bytes::lemma_auto_spec_u32_to_from_le_bytes();
            assert(self.block_buffer@ == mid.block_buffer@ + enc_entry(e)) by {
                assert(enc_entry(e) =~= vstd::bytes::spec_u32_to_le_bytes(
                    encode_utf8(key@).len() as u32,
                ) + encode_utf8(key@) + vstd::bytes::spec_u32_to_le_bytes(
                    encode_utf8(value@).len() as u32,
                ) + encode_utf8(value@));
                assert(self.block_buffer@ =~= mid.block_buffer@ + enc_entry(e));
            }
            assert(enc_entry(e).len() == entry_size as int);
            if mid.block_buffer@.len() == 0 {
                mid.lemma_buffer_empty();
            }
            Self::lemma_append_entry(mid, *self, e, m, es);
        }
    }

    /// Append a tombstone; keys must arrive in strictly ascending order.
    pub fn delete(&mut self, key: &str)
        requires
            old(self).wf(),
            encode_utf8(key@).len() <= 0xFFFF_FFFF,
            old(self).entries().len() > 0 ==> key_lt(old(self).entries().last().0, key@),
        ensures
            final(self).wf(),
            final(self).entries() == old(self).entries().push((key@, None)),
    {
        let entry_size: u64 = 8 + key.len() as u64;
        if self.block_buffer.len() != 0 && self.block_buffer.len() as u64 + entry_size
            > BLOCK_SIZE as u64 {
            self.flush_block();
        }
        let ghost mid = *self;
        let ghost es = self.entries_g@;
        let ghost m = self.flushed_g@;
        if self.first_key_in_block.is_none() {
            self.first_key_in_block = Some(key.to_owned());
        }
        push_u32(&mut self.block_buffer, key.len() as u32);
        push_str_bytes(&mut self.block_buffer, key);
        push_u32(&mut self.block_buffer, TOMBSTONE);
        proof {
            self.entries_g@ = self.entries_g@.push((key@, None));
        }
        proof {
            let e = (key@, None::<Seq<char>>);
            vstd::bytes::lemma_auto_spec_u32_to_from_le_bytes();
            assert(self.block_buffer@ == mid.block_buffer@ + enc_entry(e)) by {
                assert(enc_entry(e) =~= vstd::bytes::spec_u32_to_le_bytes(
                    encode_utf8(key@).len() as u32,
                ) + encode_utf8(key@) + vstd::bytes::spec_u32_to_le_bytes(TOMBSTONE));
                assert(self.block_buffer@ =~= mid.block_buffer@ + enc_entry(e));
            }
            assert(enc_entry(e).len() == entry_size as int);
            if mid.block_buffer@.len() == 0 {
                mid.lemma_buffer_empty();
            }
            Self::lemma_append_entry(mid, *self, e, m, es);
        }
    }

    /// Re-establishes the invariant after one entry was framed into the
    /// buffer and pushed onto the ghost run.
    proof fn lemma_append_entry(
        mid: SSTableBuilder,
        cur: SSTableBuilder,
        e: EntryModel,
        m: int,
        es: Seq<EntryModel>,
    )
        requires
            mid.wf(),
            es == mid.entries_g@,
            m == mid.flushed_g@,
            cur.entries_g@ == es.push(e),
            cur.flushed_g@ == m,
            cur.anchors_g@ == mid.anchors_g@,
            cur.index@ == mid.index@,
            cur.data@ == mid.data@,
            cur.block_buffer@ == mid.block_buffer@ + enc_entry(e),
            crate::codec::entry_enc_ok(e),
            es.len() > 0 ==> key_lt(es.last().0, e.0),
            cur.block_buffer@.len() <= MAX_ENTRY_BYTES,
            cur.block_buffer@.len() <= BLOCK_SIZE || es.len() + 1 - m == 1,
            match cur.first_key_in_block {
                Some(s) => s@ == (if m < es.len() {
                    es[m].0
                } else {
                    e.0
                }),
                None => false,
            },
        ensures
            cur.wf(),
            cur.entries() == es.push(e),
    {
        let es1 = cur.entries_g@;
        assert(es1.len() == es.len() + 1);
        assert(entries_sorted(es1)) by {
            assert forall|i: int, j: int|
                0 <= i < j < es1.len() implies key_lt(#[trigger] es1[i].0, #[trigger] es1[j].0) by {
                if j < es.len() {
                    assert(es1[i] == es[i]);
                    assert(es1[j] == es[j]);
                } else {
                    assert(es1[j] == e);
                    assert(es1[i] == es[i]);
                    if i < es.len() - 1 {
                        assert(key_lt(es[i].0, es.last().0));
                        lemma_key_lt_trans(es[i].0, es.last().0, e.0);
                    }
                }
            }
        }
        assert(entries_enc_ok(es1)) by {
            assert forall|i: int| 0 <= i < es1.len() implies crate::codec::entry_enc_ok(
                #[trigger] es1[i],
            ) by {
                if i < es.len() {
                    assert(es1[i] == es[i]);
                } else {
                    assert(es1[i] == e);
                }
            }
        }
        assert(es1.take(m) =~= es.take(m));
        assert(es1.skip(m) =~= es.skip(m).push(e));
        assert(enc_entries(es1.skip(m)) == enc_entries(es.skip(m)) + enc_entry(e)) by {
            assert(es.skip(m).push(e) =~= es.skip(m) + seq![e]);
            lemma_enc_entries_concat(es.skip(m), seq![e]);
            assert(enc_entries(seq![e]) =~= enc_entry(e)) by {
                assert(seq![e].drop_first() =~= Seq::<EntryModel>::empty());
                assert(enc_entries(seq![e]) == enc_entry(e) + enc_entries(
                    Seq::<EntryModel>::empty(),
                ));
            }
        }
        assert(cur.block_buffer@ == enc_entries(es1.skip(m)));
        assert(m < es1.len());
        let anchors = cur.anchors_g@;
        assert forall|i: int|
            0 <= i < anchors.len() implies 0 <= #[trigger] anchors[i] < m && cur.index@[i].0@
            == es1[anchors[i]].0 && cur.index@[i].1 as int == entry_offset(es1, anchors[i]) by {
            assert(0 <= anchors[i] < m);
            assert(es1[anchors[i]] == es[anchors[i]]);
            assert(es1.take(anchors[i]) =~= es.take(anchors[i]));
        }
        assert forall|i: int|
            0 <= i < anchors.len() - 1 implies entry_offset(es1, anchors[i + 1]) - entry_offset(
            es1,
            #[trigger] anchors[i],
        ) <= BLOCK_SIZE || anchors[i + 1] == anchors[i] + 1 by {
            assert(es1.take(anchors[i]) =~= es.take(anchors[i]));
            assert(es1.take(anchors[i + 1]) =~= es.take(anchors[i + 1]));
        }
        if anchors.len() > 0 {
            assert(entry_offset(es1, m) - entry_offset(es1, anchors.last()) <= BLOCK_SIZE || m
                == anchors.last() + 1) by {
                assert(es1.take(m) =~= es.take(m));
                assert(es1.take(anchors.last()) =~= es.take(anchors.last()));
            }
        }
    }

    /// Seal the residual block, append the index region and the footer,
    /// and return the finished file image.
    #[verifier::rlimit(100)]
    #[verifier::spinoff_prover]
    pub fn finish(self) -> (r: Vec<u8>)
        requires
            self.wf(),
        ensures
            parse_table(r@) matches Some(t) && t.entries == self.entries()
                && crate::sstable::index_blocks_sized(t.entries, t.index),
    {
        let mut b = self;
        let ghost es = b.entries_g@;
        b.flush_block();
        let idx_off = b.data.len() as u64;
        let mut out = b.data;
        let n = b.index.len();
        let ghost idx = b.index_view();
        proof {
            assert(es.take(es.len() as int) =~= es);
            assert(out@ == enc_entries(es));
            assert(idx.take(0) =~= Seq::<(Seq<char>, u64)>::empty());
            assert(enc_index(idx.take(0)) == Seq::<u8>::empty());
            assert(out@ =~= enc_entries(es) + enc_index(idx.take(0)));
        }
        let mut i: usize = 0;
        while i < n
            invariant
                b.wf(),
                es == b.entries_g@,
                idx == b.index_view(),
                n == b.index@.len(),
                0 <= i <= n,
                out@ == enc_entries(es) + enc_index(idx.take(i as int)),
                idx_off as int == enc_entries(es).len(),
            decreases n - i,
        {
            let a = &b.index[i];
            proof {
                assert(idx[i as int] == (a.0@, a.1));
                assert(crate::codec::index_entry_enc_ok(idx[i as int])) by {
                    let p = b.anchors_g@[i as int];
                    assert(a.0@ == es[p].0);
                }
            }
            push_u32(&mut out, a.0.as_str().len() as u32);
            push_str_bytes(&mut out, a.0.as_str());
            push_u64(&mut out, a.1);
            proof {
                vstd::bytes::lemma_auto_spec_u32_to_from_le_bytes();
                assert(out@ =~= enc_entries(es) + enc_index(idx.take((i + 1) as int))) by {
                    assert(idx.take((i + 1) as int) =~= idx.take(i as int) + seq![idx[i as int]]);
                    crate::codec::lemma_enc_index_concat(idx.take(i as int), seq![idx[i as int]]);
                    assert(enc_index(seq![idx[i as int]]) =~= enc_index_entry(idx[i as int])) by {
                        assert(seq![idx[i as int]][0] == idx[i as int]);
                        assert(seq![idx[i as int]].drop_first() =~= Seq::<(Seq<char>, u64)>::empty());
                        assert(enc_index(Seq::<(Seq<char>, u64)>::empty()) == Seq::<u8>::empty());
                    }
                    assert(enc_index_entry(idx[i as int]) =~= vstd::bytes::spec_u32_to_le_bytes(
                        encode_utf8(a.0@).len() as u32,
                    ) + encode_utf8(a.0@) + vstd::bytes::spec_u64_to_le_bytes(a.1));
                }
            }
            i = i + 1;
        }
        push_u64(&mut out, idx_off);
        proof {
            assert(idx.take(n as int) =~= idx);
            vstd::bytes::lemma_auto_spec_u64_to_from_le_bytes();
            assert(out@ =~= enc_entries(es) + enc_index(idx) + vstd::bytes::spec_u64_to_le_bytes(
                idx_off,
            ));
            Self::lemma_finish_image(b, out@, idx, idx_off);
            Self::lemma_anchors_sized(b);
            assert(parse_table(out@) == Some(TableModel { entries: es, index: idx }));
            assert(crate::sstable::index_blocks_sized(es, idx)) by {
                assert(crate::sstable::blocks_sized(es, idx, b.anchors_g@));
            }
        }
        out
    }


    /// The anchors of a fully sealed builder witness the block sizing.
    proof fn lemma_anchors_sized(b: SSTableBuilder)
        requires
            b.wf(),
            b.flushed_g@ == b.entries_g@.len(),
        ensures
            crate::sstable::blocks_sized(b.entries_g@, b.index_view(), b.anchors_g@),
    {
        let es = b.entries_g@;
        let idx = b.index_view();
        assert(es.take(es.len() as int) =~= es);
        assert(entry_offset(es, es.len() as int) == enc_entries(es).len());
        assert forall|k: int|
            0 <= k < b.anchors_g@.len() implies 0 <= #[trigger] b.anchors_g@[k] < es.len()
            && idx[k].0 == es[b.anchors_g@[k]].0 && idx[k].1 as int == entry_offset(
            es,
            b.anchors_g@[k],
        ) by {
            assert(idx[k] == (b.index@[k].0@, b.index@[k].1));
        }
        if b.anchors_g@.len() > 0 {
            assert(enc_entries(es).len() - entry_offset(es, b.anchors_g@.last()) <= BLOCK_SIZE
                || es.len() == b.anchors_g@.last() + 1) by {
                assert(entry_offset(es, b.flushed_g@) - entry_offset(es, b.anchors_g@.last())
                    <= BLOCK_SIZE || b.flushed_g@ == b.anchors_g@.last() + 1);
            }
        }
    }

    /// The assembled image parses back to the builder's run.
    #[verifier::rlimit(100)]
    #[verifier::spinoff_prover]
    proof fn lemma_finish_image(
        b: SSTableBuilder,
        fb: Seq<u8>,
        idx: Seq<(Seq<char>, u64)>,
        idx_off: u64,
    )
        requires
            b.wf(),
            b.flushed_g@ == b.entries_g@.len(),
            idx == b.index_view(),
            idx_off as int == enc_entries(b.entries_g@).len(),
            fb == enc_entries(b.entries_g@) + enc_index(idx) + vstd::bytes::spec_u64_to_le_bytes(
                idx_off,
            ),
        ensures
            parse_table(fb) == Some(TableModel { entries: b.entries_g@, index: idx }),
    {
        let es = b.entries_g@;
        vstd::bytes::lemma_auto_spec_u64_to_from_le_bytes();
        let footer = vstd::bytes::spec_u64_to_le_bytes(idx_off);

            assert(fb.len() == enc_entries(es).len() + enc_index(idx).len() + 8);
            assert(fb.subrange(fb.len() - 8, fb.len() as int) =~= footer);
            assert(vstd::bytes::spec_u64_from_le_bytes(fb.subrange(fb.len() - 8, fb.len() as int))
                == idx_off);
            assert(fb.subrange(0, idx_off as int) =~= enc_entries(es));
            assert(fb.subrange(idx_off as int, fb.len() - 8) =~= enc_index(idx));
            assert(parse_entries(Seq::<u8>::empty()) is Some);
            lemma_parse_enc_entries(es, Seq::<u8>::empty());
            assert(enc_entries(es) + Seq::<u8>::empty() =~= enc_entries(es));
            assert(parse_entries(enc_entries(es)) == Some(es + Seq::<EntryModel>::empty()));
            assert(es + Seq::<EntryModel>::empty() =~= es);
            assert(index_enc_ok(idx)) by {
                assert forall|k: int| 0 <= k < idx.len() implies crate::codec::index_entry_enc_ok(
                    #[trigger] idx[k],
                ) by {
                    let p = b.anchors_g@[k];
                    assert(idx[k].0 == b.index@[k].0@);
                    assert(idx[k].0 == es[p].0);
                }
            }
            assert(parse_index(Seq::<u8>::empty()) is Some);
            lemma_parse_enc_index(idx, Seq::<u8>::empty());
            assert(enc_index(idx) + Seq::<u8>::empty() =~= enc_index(idx));
            assert(parse_index(enc_index(idx)) == Some(idx + Seq::<(Seq<char>, u64)>::empty()));
            assert(idx + Seq::<(Seq<char>, u64)>::empty() =~= idx);
            // the shape conditions
            assert(index_sorted(idx)) by {
                assert forall|x: int, y: int| 0 <= x < y < idx.len() implies key_lt(
                    #[trigger] idx[x].0,
                    #[trigger] idx[y].0,
                ) by {
                    let px = b.anchors_g@[x];
                    let py = b.anchors_g@[y];
                    assert(px < py);
                    assert(idx[x].0 == es[px].0);
                    assert(idx[y].0 == es[py].0);
                }
            }
            assert forall|k: int| 0 <= k < idx.len() implies anchor_ok(es, #[trigger] idx[k]) by {
                let p = b.anchors_g@[k];
                assert(0 <= p < es.len() && idx[k].0 == es[p].0 && idx[k].1 as int == entry_offset(
                    es,
                    p,
                ));
            }
            if es.len() > 0 {
                assert(b.flushed_g@ == es.len());
                assert(idx.len() > 0);
                assert(b.anchors_g@[0] == 0);
                assert(idx[0].0 == es[0].0);
                assert(idx[0].1 as int == entry_offset(es, 0));
                assert(es.take(0) =~= Seq::<EntryModel>::empty());
                assert(entry_offset(es, 0) == 0);
            }
    }
}

} // verus!

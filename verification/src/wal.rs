//! The write-ahead log.
//!
//! Every mutation is framed as an opcode-prefixed record and appended to
//! the log image before the memtable changes; the unverified shell
//! appends the same bytes to the log file and syncs it, which makes the
//! log the ground truth until the next flush.  Replay decodes the image
//! back into operations, stopping at the first malformed record so that
//! a torn tail loses only the tail.
use vstd::prelude::*;
use vstd::utf8::encode_utf8;

use crate::codec::enc_wal;
use crate::codec::enc_wal_op;
use crate::codec::entries_enc_ok;
use crate::codec::entry_view;
use crate::codec::lemma_enc_wal_snoc;
use crate::codec::parse_wal;
use crate::codec::push_str_bytes;
use crate::codec::push_u32;
use crate::codec::read_str;
use crate::codec::read_u32;
use crate::codec::OP_DEL;
use crate::codec::OP_SET;
use crate::model::EntryModel;

verus! {

/// The model of a batch of insertions.
pub open spec fn batch_view(es: Seq<(String, String)>) -> Seq<EntryModel> {
    es.map_values(|p: (String, String)| (p.0@, Some(p.1@)))
}

/// The batch as plain key and value views.
pub open spec fn batch_pairs(es: Seq<(String, String)>) -> Seq<(Seq<char>, Seq<char>)> {
    es.map_values(|p: (String, String)| (p.0@, p.1@))
}

/// Append-only log image of the operations since the last flush.
pub struct WAL {
    data: Vec<u8>,
    ops_g: Ghost<Seq<EntryModel>>,
}

impl WAL {
    /// The operations recorded since the last truncation, in log order.
    pub closed spec fn ops(self) -> Seq<EntryModel> {
        self.ops_g@
    }

    /// The log file image.
    pub closed spec fn image(self) -> Seq<u8> {
        self.data@
    }

    /// The image is exactly the framing of the recorded operations.
    pub closed spec fn wf(self) -> bool {
        &&& self.data@ == enc_wal(self.ops_g@)
        &&& entries_enc_ok(self.ops_g@)
    }

    pub fn new() -> (r: WAL)
        ensures
            r.wf(),
            r.ops() == Seq::<EntryModel>::empty(),
            r.image() == Seq::<u8>::empty(),
    {
        WAL { data: Vec::new(), ops_g: Ghost(Seq::empty()) }
    }

    /// A well-formed log's image is exactly the framing of its
    /// operations, which all fit the length fields.
    pub proof fn lemma_wf_image(self)
        requires
            self.wf(),
        ensures
            self.image() == enc_wal(self.ops()),
            entries_enc_ok(self.ops()),
    {
    }

    /// Append one insertion record; returns the bytes appended so the
    /// shell can write and sync them.
    pub fn set(&mut self, key: &str, value: &str) -> (rec: Vec<u8>)
        requires
            old(self).wf(),
            encode_utf8(key@).len() <= 0xFFFF_FFFF,
            encode_utf8(value@).len() < 0xFFFF_FFFF,
        ensures
            final(self).wf(),
            final(self).ops() == old(self).ops().push((key@, Some(value@))),
            rec@ == enc_wal_op((key@, Some(value@))),
            final(self).image() == old(self).image() + rec@,
    {
        let mut rec: Vec<u8> = Vec::new();
        rec.push(OP_SET);
        push_u32(&mut rec, key.len() as u32);
        push_str_bytes(&mut rec, key);
        push_u32(&mut rec, value.len() as u32);
        push_str_bytes(&mut rec, value);
        proof {
            assert(rec@ =~= enc_wal_op((key@, Some(value@))));
        }
        self.data.extend_from_slice(rec.as_slice());
        proof {
            assert(self.data@ =~= old(self).data@ + rec@);
            self.ops_g@ = self.ops_g@.push((key@, Some(value@)));
            lemma_enc_wal_snoc(old(self).ops_g@, (key@, Some(value@)));
            assert forall|i: int| 0 <= i < self.ops_g@.len() implies crate::codec::entry_enc_ok(
                #[trigger] self.ops_g@[i],
            ) by {
                if i < old(self).ops_g@.len() {
                    assert(self.ops_g@[i] == old(self).ops_g@[i]);
                } else {
                    assert(self.ops_g@[i] == (key@, Some(value@)));
                }
            }
        }
        rec
    }

    /// Append one deletion record; returns the bytes appended.
    pub fn del(&mut self, key: &str) -> (rec: Vec<u8>)
        requires
            old(self).wf(),
            encode_utf8(key@).len() <= 0xFFFF_FFFF,
        ensures
            final(self).wf(),
            final(self).ops() == old(self).ops().push((key@, None)),
            rec@ == enc_wal_op((key@, None)),
            final(self).image() == old(self).image() + rec@,
    {
        let mut rec: Vec<u8> = Vec::new();
        rec.push(OP_DEL);
        push_u32(&mut rec, key.len() as u32);
        push_str_bytes(&mut rec, key);
        proof {
            assert(rec@ =~= enc_wal_op((key@, None)));
        }
        self.data.extend_from_slice(rec.as_slice());
        proof {
            assert(self.data@ =~= old(self).data@ + rec@);
            self.ops_g@ = self.ops_g@.push((key@, None));
            lemma_enc_wal_snoc(old(self).ops_g@, (key@, None));
            assert forall|i: int| 0 <= i < self.ops_g@.len() implies crate::codec::entry_enc_ok(
                #[trigger] self.ops_g@[i],
            ) by {
                if i < old(self).ops_g@.len() {
                    assert(self.ops_g@[i] == old(self).ops_g@[i]);
                } else {
                    assert(self.ops_g@[i] == (key@, None::<Seq<char>>));
                }
            }
        }
        rec
    }

    /// Append one record per batch element; returns all the appended
    /// bytes, which the shell writes under a single sync.
    pub fn batch_set(&mut self, entries: &Vec<(String, String)>) -> (rec: Vec<u8>)
        requires
            old(self).wf(),
            forall|i: int|
                0 <= i < entries@.len() ==> encode_utf8(
                    (#[trigger] entries@[i]).0@,
                ).len() <= 0xFFFF_FFFF && encode_utf8(entries@[i].1@).len() < 0xFFFF_FFFF,
        ensures
            final(self).wf(),
            final(self).ops() == old(self).ops() + batch_view(entries@),
            final(self).image() == old(self).image() + rec@,
            rec@ == enc_wal(batch_view(entries@)),
    {
        let ghost ops0 = self.ops_g@;
        let ghost img0 = self.data@;
        let n = entries.len();
        let mut rec: Vec<u8> = Vec::new();
        let mut i: usize = 0;
        proof {
            assert(ops0 + batch_view(entries@.take(0)) =~= ops0);
        }
        while i < n
            invariant
                self.wf(),
                n == entries@.len(),
                0 <= i <= n,
                forall|k: int|
                    0 <= k < entries@.len() ==> encode_utf8(
                        (#[trigger] entries@[k]).0@,
                    ).len() <= 0xFFFF_FFFF && encode_utf8(entries@[k].1@).len() < 0xFFFF_FFFF,
                self.ops_g@ == ops0 + batch_view(entries@.take(i as int)),
                self.data@ == img0 + rec@,
                rec@ == enc_wal(batch_view(entries@.take(i as int))),
            decreases n - i,
        {
            let e = &entries[i];
            let ghost rec0 = rec@;
            let one = self.set(e.0.as_str(), e.1.as_str());
            rec.extend_from_slice(one.as_slice());
            proof {
                assert(rec@ =~= rec0 + one@);
                assert(self.data@ =~= img0 + rec@);
                assert(batch_view(entries@.take((i + 1) as int)) =~= batch_view(
                    entries@.take(i as int),
                ).push((e.0@, Some(e.1@)))) by {
                    assert forall|j: int|
                        0 <= j < i + 1 implies batch_view(entries@.take((i + 1) as int))[j]
                        == batch_view(entries@.take(i as int)).push((e.0@, Some(e.1@)))[j] by {
                        assert(batch_view(entries@.take((i + 1) as int))[j] == (entries@[j].0@,
                            Some(entries@[j].1@)));
                        if j < i as int {
                            assert(batch_view(entries@.take(i as int))[j] == (entries@[j].0@, Some(
                                entries@[j].1@,
                            )));
                        }
                    }
                }
                assert(self.ops_g@ =~= ops0 + batch_view(entries@.take((i + 1) as int)));
                lemma_enc_wal_snoc(batch_view(entries@.take(i as int)), (e.0@, Some(e.1@)));
                assert(rec@ == enc_wal(batch_view(entries@.take((i + 1) as int))));
            }
            i = i + 1;
        }
        proof {
            assert(entries@.take(n as int) =~= entries@);
            assert(enc_wal(batch_view(entries@.take(0))) =~= Seq::<u8>::empty());
        }
        rec
    }

    /// A copy of the log image, for the shell to persist.
    pub fn image_bytes(&self) -> (r: Vec<u8>)
        ensures
            r@ == self.image(),
    {
        vstd::slice::slice_to_vec(self.data.as_slice())
    }

    /// Truncate the log after a successful flush.
    pub fn clear(&mut self)
        ensures
            final(self).wf(),
            final(self).ops() == Seq::<EntryModel>::empty(),
            final(self).image() == Seq::<u8>::empty(),
    {
        self.data.clear();
        proof {
            self.ops_g@ = Seq::empty();
        }
    }
}

/// Streaming replay of a log image: yields the operations of its
/// well-formed prefix and stops at the first malformed record.
pub struct WALIterator {
    data: Vec<u8>,
    pos: usize,
    yielded_g: Ghost<Seq<EntryModel>>,
}

impl WALIterator {
    /// The log image being replayed.
    pub closed spec fn src(self) -> Seq<u8> {
        self.data@
    }

    /// How far the replay has read.
    pub closed spec fn spec_pos(self) -> int {
        self.pos as int
    }

    /// The operations yielded so far.
    pub closed spec fn yielded(self) -> Seq<EntryModel> {
        self.yielded_g@
    }

    pub closed spec fn wf(self) -> bool {
        &&& self.pos <= self.data@.len()
        &&& parse_wal(self.data@) == self.yielded_g@ + parse_wal(self.data@.skip(self.pos as int))
        &&& entries_enc_ok(self.yielded_g@)
    }

    pub fn new(data: Vec<u8>) -> (r: WALIterator)
        ensures
            r.wf(),
            r.src() == data@,
            r.yielded() == Seq::<EntryModel>::empty(),
            r.spec_pos() == 0,
    {
        let r = WALIterator { data, pos: 0, yielded_g: Ghost(Seq::empty()) };
        proof {
            assert(r.data@.skip(0) =~= r.data@);
            assert(r.yielded_g@ + parse_wal(r.data@) =~= parse_wal(r.data@));
        }
        r
    }

    /// The next operation of the log.  A clean end of the image yields
    /// nothing; a torn record, an unknown opcode or invalid UTF-8 in a
    /// key or value is reported as corruption, and replay stops there:
    /// the operations yielded so far are the log's well-formed prefix.
    pub fn next(&mut self) -> (r: Option<Result<(String, Option<String>), crate::DbError>>)
        requires
            old(self).wf(),
        ensures
            final(self).wf(),
            final(self).src() == old(self).src(),
            final(self).spec_pos() >= old(self).spec_pos(),
            final(self).spec_pos() <= final(self).src().len(),
            match r {
                Some(rr) => match rr {
                    Ok(e) => {
                        &&& final(self).yielded() == old(self).yielded().push(entry_view(e))
                        &&& crate::codec::entry_enc_ok(entry_view(e))
                        &&& final(self).spec_pos() > old(self).spec_pos()
                    },
                    Err(e2) => {
                        &&& e2 == crate::DbError::Corruption
                        &&& *final(self) == *old(self)
                        &&& old(self).yielded() == parse_wal(old(self).src())
                        &&& old(self).spec_pos() < old(self).src().len()
                    },
                },
                None => {
                    &&& *final(self) == *old(self)
                    &&& old(self).yielded() == parse_wal(old(self).src())
                    &&& old(self).spec_pos() == old(self).src().len()
                },
            },
    {
        let ghost su = self.data@.skip(self.pos as int);
        proof {
            vstd::bytes::lemma_auto_spec_u32_to_from_le_bytes();
        }
        let n = self.data.len();
        let pos = self.pos;
        let rem = n - pos;
        if rem == 0 {
            proof {
                assert(parse_wal(su) =~= Seq::<EntryModel>::empty());
                assert(self.yielded_g@ + parse_wal(su) =~= self.yielded_g@);
            }
            return None;
        }
        if rem < 5 {
            proof {
                assert(parse_wal(su) =~= Seq::<EntryModel>::empty());
                assert(self.yielded_g@ + parse_wal(su) =~= self.yielded_g@);
            }
            return Some(Err(crate::DbError::Corruption));
        }
        let op = self.data[pos];
        let klen32 = read_u32(self.data.as_slice(), pos + 1);
        proof {
            assert(su[0] == self.data@[pos as int]);
            assert(self.data@.subrange(pos + 1, pos + 5) =~= su.subrange(1, 5));
        }
        let klen = klen32 as usize;
        if op == OP_DEL {
            if 5u64 + klen as u64 > rem as u64 {
                proof {
                    assert(parse_wal(su) =~= Seq::<EntryModel>::empty());
                    assert(self.yielded_g@ + parse_wal(su) =~= self.yielded_g@);
                }
                return Some(Err(crate::DbError::Corruption));
            }
            let kstr_opt = read_str(self.data.as_slice(), pos + 5, klen);
            proof {
                assert(self.data@.subrange(pos + 5, pos + 5 + klen as int) =~= su.subrange(
                    5,
                    5 + klen as int,
                ));
            }
            match kstr_opt {
                Some(kstr) => {
                    let e = (kstr, None::<String>);
                    self.pos = pos + 5 + klen;
                    proof {
                        let ev = entry_view(e);
                        assert(su.skip(5 + klen as int) =~= self.data@.skip(self.pos as int));
                        assert(parse_wal(su) == seq![ev] + parse_wal(
                            self.data@.skip(self.pos as int),
                        ));
                        self.yielded_g@ = self.yielded_g@.push(ev);
                        assert(self.yielded_g@ + parse_wal(self.data@.skip(self.pos as int))
                            =~= old(self).yielded_g@ + parse_wal(su));
                        assert forall|i: int|
                            0 <= i < self.yielded_g@.len() implies crate::codec::entry_enc_ok(
                            #[trigger] self.yielded_g@[i],
                        ) by {
                            if i < old(self).yielded_g@.len() {
                                assert(self.yielded_g@[i] == old(self).yielded_g@[i]);
                            } else {
                                assert(self.yielded_g@[i] == ev);
                            }
                        }
                    }
                    Some(Ok(e))
                },
                None => {
                    proof {
                        assert(parse_wal(su) =~= Seq::<EntryModel>::empty());
                        assert(self.yielded_g@ + parse_wal(su) =~= self.yielded_g@);
                    }
                    Some(Err(crate::DbError::Corruption))
                },
            }
        } else if op == OP_SET {
            if 9u64 + klen as u64 > rem as u64 {
                proof {
                    assert(5 + (klen as int) + 4 > su.len());
                    assert(parse_wal(su) =~= Seq::<EntryModel>::empty());
                    assert(self.yielded_g@ + parse_wal(su) =~= self.yielded_g@);
                }
                return Some(Err(crate::DbError::Corruption));
            }
            let vlen32 = read_u32(self.data.as_slice(), pos + 5 + klen);
            proof {
                assert(self.data@.subrange(pos + 5 + klen as int, pos + 9 + klen as int)
                    =~= su.subrange(5 + klen as int, 9 + klen as int));
            }
            if vlen32 == crate::codec::TOMBSTONE {
                proof {
                    assert(parse_wal(su) =~= Seq::<EntryModel>::empty());
                    assert(self.yielded_g@ + parse_wal(su) =~= self.yielded_g@);
                }
                return Some(Err(crate::DbError::Corruption));
            }
            let vlen = vlen32 as usize;
            if 9u64 + klen as u64 + vlen as u64 > rem as u64 {
                proof {
                    assert(9 + (klen as int) + (vlen as int) > su.len());
                    assert(parse_wal(su) =~= Seq::<EntryModel>::empty());
                    assert(self.yielded_g@ + parse_wal(su) =~= self.yielded_g@);
                }
                return Some(Err(crate::DbError::Corruption));
            }
            let kstr_opt = read_str(self.data.as_slice(), pos + 5, klen);
            let vstr_opt = read_str(self.data.as_slice(), pos + 9 + klen, vlen);
            proof {
                assert(self.data@.subrange(pos + 5, pos + 5 + klen as int) =~= su.subrange(
                    5,
                    5 + klen as int,
                ));
                assert(self.data@.subrange(pos + 9 + klen as int, pos + 9 + klen as int
                    + vlen as int) =~= su.subrange(9 + klen as int, 9 + klen as int + vlen as int));
            }
            match (kstr_opt, vstr_opt) {
                (Some(kstr), Some(vstr)) => {
                    let e = (kstr, Some(vstr));
                    self.pos = pos + 9 + klen + vlen;
                    proof {
                        let ev = entry_view(e);
                        assert(su.skip(9 + klen as int + vlen as int) =~= self.data@.skip(
                            self.pos as int,
                        ));
                        assert(parse_wal(su) == seq![ev] + parse_wal(
                            self.data@.skip(self.pos as int),
                        ));
                        self.yielded_g@ = self.yielded_g@.push(ev);
                        assert(self.yielded_g@ + parse_wal(self.data@.skip(self.pos as int))
                            =~= old(self).yielded_g@ + parse_wal(su));
                        assert forall|i: int|
                            0 <= i < self.yielded_g@.len() implies crate::codec::entry_enc_ok(
                            #[trigger] self.yielded_g@[i],
                        ) by {
                            if i < old(self).yielded_g@.len() {
                                assert(self.yielded_g@[i] == old(self).yielded_g@[i]);
                            } else {
                                assert(self.yielded_g@[i] == ev);
                            }
                        }
                    }
                    Some(Ok(e))
                },
                _ => {
                    proof {
                        assert(parse_wal(su) =~= Seq::<EntryModel>::empty());
                        assert(self.yielded_g@ + parse_wal(su) =~= self.yielded_g@);
                    }
                    Some(Err(crate::DbError::Corruption))
                },
            }
        } else {
            proof {
                assert(parse_wal(su) =~= Seq::<EntryModel>::empty());
                assert(self.yielded_g@ + parse_wal(su) =~= self.yielded_g@);
            }
            Some(Err(crate::DbError::Corruption))
        }
    }
}

} // verus!

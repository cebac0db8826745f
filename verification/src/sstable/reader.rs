//! Reader of an immutable sorted table.
//!
//! Opening a table decodes and checks the whole image once: the footer,
//! the index region, the data region, the ascending key order, and that
//! every index anchor sits on an entry boundary with the entry's key.  A
//! damaged image is rejected as corruption, so lookups on an open table
//! cannot fail.  Point lookups pick the greatest anchor at or below the
//! key and scan entries forward from its block, per the file design.
use vstd::bytes::spec_u64_from_le_bytes;
use vstd::prelude::*;
use vstd::slice::slice_to_vec;
use vstd::utf8::encode_utf8;

use crate::codec::enc_entries;
use crate::codec::enc_entry;
use crate::codec::entries_view;
use crate::codec::entry_offset;
use crate::codec::entry_view;
use crate::codec::parse_entries;
use crate::codec::parse_index;
use crate::codec::read_str;
use crate::codec::read_u32;
use crate::codec::read_u64;
use crate::codec::TOMBSTONE;
use crate::model::entries_sorted;
use crate::model::in_range;
use crate::model::lemma_absent_at;
use crate::model::lemma_lookup_at;
use crate::model::lemma_range_live_below;
use crate::model::lemma_range_live_cut;
use crate::model::lemma_range_live_snoc;
use crate::model::lookup;
use crate::model::range_live;
use crate::model::EntryModel;
use crate::order::cmp_bytes;
use crate::order::key_lt;
use crate::order::lemma_encode_utf8_injective;
use crate::order::lemma_key_lt_asymm;
use crate::order::lemma_key_lt_irrefl;
use crate::order::lemma_key_lt_trans;
use crate::order::ByteOrd;
use crate::sstable::anchor_ok;
use crate::sstable::index_anchors_ok;
use crate::sstable::index_sorted;
use crate::sstable::parse_table;
use crate::sstable::table_shape_ok;
use crate::sstable::TableModel;
use crate::DbError;

verus! {

/// Outcome of a point lookup in one table.
#[derive(Debug)]
pub enum SearchResult {
    Found(String),
    NotFound,
    Deleted,
}

impl PartialEq for SearchResult {
    fn eq(&self, other: &SearchResult) -> (r: bool) {
        match (self, other) {
            (SearchResult::Found(a), SearchResult::Found(b)) => a.eq(b),
            (SearchResult::NotFound, SearchResult::NotFound) => true,
            (SearchResult::Deleted, SearchResult::Deleted) => true,
            _ => false,
        }
    }
}

impl vstd::std_specs::cmp::PartialEqSpecImpl for SearchResult {
    open spec fn obeys_eq_spec() -> bool {
        true
    }

    open spec fn eq_spec(&self, other: &SearchResult) -> bool {
        match (self, other) {
            (SearchResult::Found(a), SearchResult::Found(b)) => a@ == b@,
            (SearchResult::NotFound, SearchResult::NotFound) => true,
            (SearchResult::Deleted, SearchResult::Deleted) => true,
            _ => false,
        }
    }
}

impl Eq for SearchResult {

}

/// Joins an already-decoded prefix with the outcome on the remaining bytes.
spec fn join_parsed(acc: Seq<EntryModel>, rest: Option<Seq<EntryModel>>) -> Option<
    Seq<EntryModel>,
> {
    match rest {
        Some(r) => Some(acc + r),
        None => None,
    }
}

/// Decode the data region `b[0..end]` into entries with their byte
/// offsets, checking strictly ascending keys.
#[verifier::rlimit(100)]
fn parse_data_region(b: &[u8], end: usize) -> (r: Option<
    (Vec<(String, Option<String>)>, Vec<usize>),
>)
    requires
        end <= b@.len(),
    ensures
        ({
            let data = b@.subrange(0, end as int);
            match r {
                Some((es_v, offs)) => {
                    &&& parse_entries(data) == Some(entries_view(es_v@))
                    &&& entries_sorted(entries_view(es_v@))
                    &&& offs@.len() == es_v@.len()
                    &&& forall|i: int|
                        0 <= i < offs@.len() ==> (#[trigger] offs@[i]) as int == entry_offset(
                            entries_view(es_v@),
                            i,
                        )
                },
                None => match parse_entries(data) {
                    Some(es) => !entries_sorted(es),
                    None => true,
                },
            }
        }),
{
    let ghost data = b@.subrange(0, end as int);
    let mut entries: Vec<(String, Option<String>)> = Vec::new();
    let mut offsets: Vec<usize> = Vec::new();
    let mut pos: usize = 0;
    proof {
        assert(data.skip(0) =~= data);
        assert(entries_view(entries@) =~= Seq::<EntryModel>::empty());
        assert(data.subrange(0, 0) =~= enc_entries(entries_view(entries@)));
        vstd::bytes::lemma_auto_spec_u32_to_from_le_bytes();
    }
    while pos < end
        invariant
            end <= b@.len(),
            data == b@.subrange(0, end as int),
            0 <= pos <= end,
            parse_entries(data) == join_parsed(
                entries_view(entries@),
                parse_entries(data.skip(pos as int)),
            ),
            entries_sorted(entries_view(entries@)),
            data.subrange(0, pos as int) == enc_entries(entries_view(entries@)),
            offsets@.len() == entries@.len(),
            forall|i: int|
                0 <= i < offsets@.len() ==> (#[trigger] offsets@[i]) as int == entry_offset(
                    entries_view(entries@),
                    i,
                ),
        decreases end - pos,
    {
        let ghost acc = entries_view(entries@);
        let ghost su = data.skip(pos as int);
        proof {
            vstd::bytes::lemma_auto_spec_u32_to_from_le_bytes();
            assert(su.len() == end - pos);
        }
        let rem = end - pos;
        if rem < 4 {
            proof {
                assert(parse_entries(su) is None);
            }
            return None;
        }
        let klen32 = read_u32(b, pos);
        proof {
            assert(b@.subrange(pos as int, pos as int + 4) =~= su.subrange(0, 4));
        }
        let klen = klen32 as usize;
        if 8u64 + klen as u64 > rem as u64 {
            proof {
                assert(4 + (klen as int) + 4 > su.len());
                assert(parse_entries(su) is None);
            }
            return None;
        }
        let kstr_opt = read_str(b, pos + 4, klen);
        proof {
            assert(b@.subrange(pos + 4, pos + 4 + klen as int) =~= su.subrange(4, 4 + klen as int));
        }
        let kstr = match kstr_opt {
            Some(s) => s,
            None => {
                proof {
                    assert(parse_entries(su) is None);
                }
                return None;
            },
        };
        let marker = read_u32(b, pos + 4 + klen);
        proof {
            assert(b@.subrange(pos + 4 + klen as int, pos + 8 + klen as int) =~= su.subrange(
                4 + klen as int,
                8 + klen as int,
            ));
        }
        let ghost kb = su.subrange(4, 4 + klen as int);
        let entry: (String, Option<String>);
        let newpos: usize;
        if marker == TOMBSTONE {
            entry = (kstr, None);
            newpos = pos + 8 + klen;
        } else {
            let vlen = marker as usize;
            if 8u64 + klen as u64 + vlen as u64 > rem as u64 {
                proof {
                    assert(8 + (klen as int) + (vlen as int) > su.len());
                    assert(parse_entries(su) is None);
                }
                return None;
            }
            let vstr_opt = read_str(b, pos + 8 + klen, vlen);
            proof {
                assert(b@.subrange(pos + 8 + klen as int, pos + 8 + klen as int + vlen as int)
                    =~= su.subrange(8 + klen as int, 8 + klen as int + vlen as int));
            }
            let vstr = match vstr_opt {
                Some(s) => s,
                None => {
                    proof {
                        assert(parse_entries(su) is None);
                    }
                    return None;
                },
            };
            entry = (kstr, Some(vstr));
            newpos = pos + 8 + klen + vlen;
        }
        let ghost ev = entry_view(entry);
        let ghost rest_parse = parse_entries(data.skip(newpos as int));
        proof {
            if ev.1 is None {
                assert(su.skip(8 + klen as int) =~= data.skip(newpos as int));
                assert(parse_entries(su) == join_parsed(seq![ev], rest_parse)) by {
                    assert(vstd::utf8::decode_utf8(kb) == ev.0);
                }
            } else {
                let vlen = marker as int;
                assert(su.skip(8 + klen as int + vlen) =~= data.skip(newpos as int));
                assert(parse_entries(su) == join_parsed(seq![ev], rest_parse)) by {
                    assert(vstd::utf8::decode_utf8(kb) == ev.0);
                }
            }
        }
        // the run must ascend strictly
        if entries.len() > 0 {
            let last = &entries[entries.len() - 1];
            let ok = match cmp_bytes(last.0.as_str().as_bytes(), entry.0.as_str().as_bytes()) {
                ByteOrd::Lt => true,
                ByteOrd::Eq => false,
                ByteOrd::Gt => false,
            };
            proof {
                assert(acc[acc.len() - 1] == entry_view(entries@[entries@.len() - 1]));
            }
            if !ok {
                proof {
                    let last_k = acc[acc.len() - 1].0;
                    if encode_utf8(last_k) == encode_utf8(ev.0) {
                        lemma_encode_utf8_injective(last_k, ev.0);
                        lemma_key_lt_irrefl(ev.0);
                    } else {
                        lemma_key_lt_asymm(ev.0, last_k);
                    }
                    assert(!key_lt(last_k, ev.0));
                    match rest_parse {
                        Some(rr) => {
                            let es = acc + (seq![ev] + rr);
                            assert(parse_entries(data) == Some(es));
                            assert(es[acc.len() - 1] == acc[acc.len() - 1]);
                            assert(es[acc.len() as int] == ev);
                            assert(!entries_sorted(es)) by {
                                if entries_sorted(es) {
                                    assert(key_lt(es[acc.len() - 1].0, es[acc.len() as int].0));
                                }
                            }
                        },
                        None => {
                            assert(parse_entries(data) is None);
                        },
                    }
                }
                return None;
            }
        }
        let ghost mid_entries = entries@;
        let ghost pos0 = pos as int;
        offsets.push(pos);
        entries.push(entry);
        pos = newpos;
        proof {
            let acc1 = entries_view(entries@);
            assert(acc1 =~= acc.push(ev)) by {
                assert forall|j: int| 0 <= j < acc1.len() implies acc1[j] == acc.push(ev)[j] by {
                    assert(acc1[j] == entry_view(entries@[j]));
                    if j < mid_entries.len() {
                        assert(entries@[j] == mid_entries[j]);
                    } else {
                        assert(entries@[j] == entry);
                    }
                }
            }
            assert(entries_sorted(acc1)) by {
                assert forall|x: int, y: int|
                    0 <= x < y < acc1.len() implies key_lt(
                    #[trigger] acc1[x].0,
                    #[trigger] acc1[y].0,
                ) by {
                    if y < acc.len() {
                        assert(acc1[x] == acc[x]);
                        assert(acc1[y] == acc[y]);
                    } else {
                        assert(acc1[y] == ev);
                        assert(acc1[x] == acc[x]);
                        if x < acc.len() - 1 {
                            assert(key_lt(acc[x].0, acc[acc.len() - 1].0));
                            lemma_key_lt_trans(acc[x].0, acc[acc.len() - 1].0, ev.0);
                        }
                    }
                }
            }
            assert(parse_entries(data) == join_parsed(acc1, parse_entries(data.skip(pos as int))))
                by {
                assert(acc + (seq![ev] + (match rest_parse {
                    Some(rr) => rr,
                    None => Seq::<EntryModel>::empty(),
                })) =~= acc1 + (match rest_parse {
                    Some(rr) => rr,
                    None => Seq::<EntryModel>::empty(),
                }));
            }
            assert(data.subrange(0, pos as int) == enc_entries(acc1)) by {
                let consumed = data.subrange(pos0, pos as int);
                assert(data.subrange(0, pos as int) =~= data.subrange(0, pos0)
                    + consumed);
                assert(consumed =~= su.subrange(0, pos as int - pos0));
                assert(consumed =~= enc_entry(ev)) by {
                    assert(su.subrange(0, 4) =~= vstd::bytes::spec_u32_to_le_bytes(klen32));
                    assert(encode_utf8(ev.0) == kb);
                    if ev.1 is None {
                        assert(su.subrange(4 + klen as int, 8 + klen as int)
                            =~= vstd::bytes::spec_u32_to_le_bytes(TOMBSTONE));
                        assert(enc_entry(ev) =~= su.subrange(0, 4) + kb + su.subrange(
                            4 + klen as int,
                            8 + klen as int,
                        ));
                    } else {
                        let vlen = marker as int;
                        assert(su.subrange(4 + klen as int, 8 + klen as int)
                            =~= vstd::bytes::spec_u32_to_le_bytes(marker));
                        assert(encode_utf8(ev.1->0) == su.subrange(
                            8 + klen as int,
                            8 + klen as int + vlen,
                        ));
                        assert(enc_entry(ev) =~= su.subrange(0, 4) + kb + su.subrange(
                            4 + klen as int,
                            8 + klen as int,
                        ) + su.subrange(8 + klen as int, 8 + klen as int + vlen));
                    }
                }
                crate::codec::lemma_enc_entries_concat(acc, seq![ev]);
                assert(acc.push(ev) =~= acc + seq![ev]);
                assert(enc_entries(seq![ev]) =~= enc_entry(ev)) by {
                    assert(seq![ev][0] == ev);
                    assert(seq![ev].drop_first() =~= Seq::<EntryModel>::empty());
                    assert(enc_entries(Seq::<EntryModel>::empty()) == Seq::<u8>::empty());
                }
            }
            assert forall|i: int|
                0 <= i < offsets@.len() implies (#[trigger] offsets@[i]) as int == entry_offset(
                acc1,
                i,
            ) by {
                if i < offsets@.len() - 1 {
                    assert(acc1.take(i) =~= acc.take(i));
                } else {
                    assert(offsets@[i] as int == pos0);
                    assert(acc1.take(i) =~= acc);
                    assert(entry_offset(acc1, i) == enc_entries(acc).len());
                    assert(data.subrange(0, pos0) == enc_entries(acc));
                }
            }
        }
    }
    proof {
        assert(data.skip(pos as int) =~= Seq::<u8>::empty());
        assert(parse_entries(Seq::<u8>::empty()) == Some(Seq::<EntryModel>::empty()));
        assert(entries_view(entries@) + Seq::<EntryModel>::empty() =~= entries_view(entries@));
    }
    Some((entries, offsets))
}


/// The model of a decoded index region.
pub open spec fn idx_pairs_view(v: Seq<(String, u64)>) -> Seq<(Seq<char>, u64)> {
    v.map_values(|a: (String, u64)| (a.0@, a.1))
}

/// Joins a decoded index prefix with the outcome on the remaining bytes.
spec fn join_idx(acc: Seq<(Seq<char>, u64)>, rest: Option<Seq<(Seq<char>, u64)>>) -> Option<
    Seq<(Seq<char>, u64)>,
> {
    match rest {
        Some(r) => Some(acc + r),
        None => None,
    }
}

/// Decode the index region `b[start..end]`, checking strictly ascending
/// anchor keys.
#[verifier::rlimit(100)]
fn parse_index_region(b: &[u8], start: usize, end: usize) -> (r: Option<Vec<(String, u64)>>)
    requires
        start <= end <= b@.len(),
    ensures
        ({
            let idxb = b@.subrange(start as int, end as int);
            match r {
                Some(v) => {
                    &&& parse_index(idxb) == Some(idx_pairs_view(v@))
                    &&& index_sorted(idx_pairs_view(v@))
                },
                None => match parse_index(idxb) {
                    Some(ix) => !index_sorted(ix),
                    None => true,
                },
            }
        }),
{
    let ghost idxb = b@.subrange(start as int, end as int);
    let mut anchors: Vec<(String, u64)> = Vec::new();
    let mut pos: usize = start;
    proof {
        assert(idxb.skip(0) =~= idxb);
        assert(idx_pairs_view(anchors@) =~= Seq::<(Seq<char>, u64)>::empty());
        vstd::bytes::lemma_auto_spec_u32_to_from_le_bytes();
        vstd::bytes::lemma_auto_spec_u64_to_from_le_bytes();
    }
    while pos < end
        invariant
            start <= pos <= end,
            end <= b@.len(),
            idxb == b@.subrange(start as int, end as int),
            parse_index(idxb) == join_idx(
                idx_pairs_view(anchors@),
                parse_index(idxb.skip(pos - start)),
            ),
            index_sorted(idx_pairs_view(anchors@)),
        decreases end - pos,
    {
        let ghost acc = idx_pairs_view(anchors@);
        let ghost su = idxb.skip(pos - start);
        proof {
            vstd::bytes::lemma_auto_spec_u32_to_from_le_bytes();
            vstd::bytes::lemma_auto_spec_u64_to_from_le_bytes();
            assert(su.len() == end - pos);
        }
        let rem = end - pos;
        if rem < 4 {
            proof {
                assert(parse_index(su) is None);
            }
            return None;
        }
        let klen32 = read_u32(b, pos);
        proof {
            assert(b@.subrange(pos as int, pos as int + 4) =~= su.subrange(0, 4));
        }
        let klen = klen32 as usize;
        if 12u64 + klen as u64 > rem as u64 {
            proof {
                assert(4 + (klen as int) + 8 > su.len());
                assert(parse_index(su) is None);
            }
            return None;
        }
        let kstr_opt = read_str(b, pos + 4, klen);
        proof {
            assert(b@.subrange(pos + 4, pos + 4 + klen as int) =~= su.subrange(4, 4 + klen as int));
        }
        let kstr = match kstr_opt {
            Some(s) => s,
            None => {
                proof {
                    assert(parse_index(su) is None);
                }
                return None;
            },
        };
        let off = read_u64(b, pos + 4 + klen);
        proof {
            assert(b@.subrange(pos + 4 + klen as int, pos + 12 + klen as int) =~= su.subrange(
                4 + klen as int,
                12 + klen as int,
            ));
        }
        let ghost av = (kstr@, off);
        let ghost rest_parse = parse_index(idxb.skip(pos + 12 + klen - start));
        proof {
            assert(su.skip(12 + klen as int) =~= idxb.skip(pos + 12 + klen - start));
            assert(parse_index(su) == join_idx(seq![av], rest_parse));
        }
        if anchors.len() > 0 {
            let last = &anchors[anchors.len() - 1];
            let ok = match cmp_bytes(last.0.as_str().as_bytes(), kstr.as_str().as_bytes()) {
                ByteOrd::Lt => true,
                ByteOrd::Eq => false,
                ByteOrd::Gt => false,
            };
            proof {
                assert(acc[acc.len() - 1] == (anchors@[anchors@.len() - 1].0@, anchors@[anchors@.len()
                    - 1].1));
            }
            if !ok {
                proof {
                    let last_k = acc[acc.len() - 1].0;
                    if encode_utf8(last_k) == encode_utf8(av.0) {
                        lemma_encode_utf8_injective(last_k, av.0);
                        lemma_key_lt_irrefl(av.0);
                    } else {
                        lemma_key_lt_asymm(av.0, last_k);
                    }
                    assert(!key_lt(last_k, av.0));
                    match rest_parse {
                        Some(rr) => {
                            let ix = acc + (seq![av] + rr);
                            assert(parse_index(idxb) == Some(ix));
                            assert(ix[acc.len() - 1] == acc[acc.len() - 1]);
                            assert(ix[acc.len() as int] == av);
                            assert(!index_sorted(ix)) by {
                                if index_sorted(ix) {
                                    assert(key_lt(ix[acc.len() - 1].0, ix[acc.len() as int].0));
                                }
                            }
                        },
                        None => {
                            assert(parse_index(idxb) is None);
                        },
                    }
                }
                return None;
            }
        }
        let ghost mid_anchors = anchors@;
        anchors.push((kstr, off));
        pos = pos + 12 + klen;
        proof {
            let acc1 = idx_pairs_view(anchors@);
            assert(acc1 =~= acc.push(av)) by {
                assert forall|j: int| 0 <= j < acc1.len() implies acc1[j] == acc.push(av)[j] by {
                    if j < mid_anchors.len() {
                        assert(anchors@[j] == mid_anchors[j]);
                    } else {
                        assert(anchors@[j] == (kstr, off));
                    }
                }
            }
            assert(index_sorted(acc1)) by {
                assert forall|x: int, y: int|
                    0 <= x < y < acc1.len() implies key_lt(
                    #[trigger] acc1[x].0,
                    #[trigger] acc1[y].0,
                ) by {
                    if y < acc.len() {
                        assert(acc1[x] == acc[x]);
                        assert(acc1[y] == acc[y]);
                    } else {
                        assert(acc1[y] == av);
                        assert(acc1[x] == acc[x]);
                        if x < acc.len() - 1 {
                            assert(key_lt(acc[x].0, acc[acc.len() - 1].0));
                            lemma_key_lt_trans(acc[x].0, acc[acc.len() - 1].0, av.0);
                        }
                    }
                }
            }
            assert(parse_index(idxb) == join_idx(acc1, parse_index(idxb.skip(pos - start)))) by {
                assert(acc + (seq![av] + (match rest_parse {
                    Some(rr) => rr,
                    None => Seq::<(Seq<char>, u64)>::empty(),
                })) =~= acc1 + (match rest_parse {
                    Some(rr) => rr,
                    None => Seq::<(Seq<char>, u64)>::empty(),
                }));
            }
        }
    }
    proof {
        assert(idxb.skip(pos - start) =~= Seq::<u8>::empty());
        assert(parse_index(Seq::<u8>::empty()) == Some(Seq::<(Seq<char>, u64)>::empty()));
        assert(idx_pairs_view(anchors@) + Seq::<(Seq<char>, u64)>::empty() =~= idx_pairs_view(
            anchors@,
        ));
    }
    Some(anchors)
}

/// Resolve each anchor to the position of its entry, checking that it
/// names an entry boundary and the entry's key.
fn resolve_anchors(
    entries: &Vec<(String, Option<String>)>,
    offsets: &Vec<usize>,
    anchors: &Vec<(String, u64)>,
) -> (r: Option<Vec<(String, usize)>>)
    requires
        offsets@.len() == entries@.len(),
        forall|i: int|
            0 <= i < offsets@.len() ==> (#[trigger] offsets@[i]) as int == entry_offset(
                entries_view(entries@),
                i,
            ),
    ensures
        ({
            let es = entries_view(entries@);
            let ia = idx_pairs_view(anchors@);
            match r {
                Some(v) => {
                    &&& index_anchors_ok(es, ia)
                    &&& v@.len() == anchors@.len()
                    &&& forall|i: int|
                        0 <= i < v@.len() ==> (#[trigger] v@[i]).0@ == ia[i].0 && v@[i].1
                            < entries@.len() && es[v@[i].1 as int].0 == ia[i].0
                },
                None => !index_anchors_ok(es, ia),
            }
        }),
{
    let ghost es = entries_view(entries@);
    let ghost ia = idx_pairs_view(anchors@);
    let n = anchors.len();
    let mut out: Vec<(String, usize)> = Vec::new();
    let mut i: usize = 0;
    while i < n
        invariant
            n == anchors@.len(),
            es == entries_view(entries@),
            ia == idx_pairs_view(anchors@),
            offsets@.len() == entries@.len(),
            forall|k: int|
                0 <= k < offsets@.len() ==> (#[trigger] offsets@[k]) as int == entry_offset(es, k),
            0 <= i <= n,
            out@.len() == i,
            forall|k: int| 0 <= k < i ==> anchor_ok(es, #[trigger] ia[k]),
            forall|k: int|
                0 <= k < i ==> (#[trigger] out@[k]).0@ == ia[k].0 && out@[k].1 < entries@.len()
                    && es[out@[k].1 as int].0 == ia[k].0,
        decreases n - i,
    {
        let a = &anchors[i];
        proof {
            assert(ia[i as int] == (a.0@, a.1));
        }
        let en = entries.len();
        let mut p: usize = 0;
        let mut hit = false;
        while p < en && !hit
            invariant
                en == entries@.len(),
                es == entries_view(entries@),
                offsets@.len() == entries@.len(),
                forall|k: int|
                    0 <= k < offsets@.len() ==> (#[trigger] offsets@[k]) as int == entry_offset(
                        es,
                        k,
                    ),
                0 <= p <= en,
                !hit ==> forall|q: int|
                    0 <= q < p ==> !((#[trigger] es[q]).0 == a.0@ && a.1 as int == entry_offset(
                        es,
                        q,
                    )),
                hit ==> p < en && es[p as int].0 == a.0@ && a.1 as int == entry_offset(es, p as int),
            decreases en - p + (if hit {
                0int
            } else {
                1int
            }),
        {
            let off_match = offsets[p] as u64 == a.1;
            let key_match = entries[p].0.eq(&a.0);
            proof {
                assert(es[p as int] == entry_view(entries@[p as int]));
            }
            if off_match && key_match {
                hit = true;
            } else {
                proof {
                    if es[p as int].0 == a.0@ && a.1 as int == entry_offset(es, p as int) {
                        assert(off_match);
                        assert(key_match);
                    }
                }
                p = p + 1;
            }
        }
        if !hit {
            proof {
                let a0 = ia[i as int];
                assert(!anchor_ok(es, a0)) by {
                    if anchor_ok(es, a0) {
                        let q = choose|q: int|
                            0 <= q < es.len() && a0.0 == (#[trigger] es[q]).0 && a0.1 as int
                                == entry_offset(es, q);
                        assert(!((es[q]).0 == a.0@ && a.1 as int == entry_offset(es, q)));
                    }
                }
                assert(!index_anchors_ok(es, ia)) by {
                    if index_anchors_ok(es, ia) {
                        assert(anchor_ok(es, ia[i as int]));
                    }
                }
            }
            return None;
        }
        out.push((a.0.clone(), p));
        proof {
            assert(anchor_ok(es, ia[i as int])) by {
                let a0 = ia[i as int];
                assert(0 <= (p as int) && (p as int) < es.len() && a0.0 == es[p as int].0
                    && a0.1 as int == entry_offset(es, p as int));
            }
            assert forall|k: int|
                0 <= k < i + 1 implies (#[trigger] out@[k]).0@ == ia[k].0 && out@[k].1
                < entries@.len() && es[out@[k].1 as int].0 == ia[k].0 by {
                if k < i as int {
                } else {
                    assert(out@[k] == (a.0, p));
                }
            }
        }
        i = i + 1;
    }
    Some(out)
}

/// Open reader of a sorted table held as an in-memory file image.
pub struct SSTableReader {
    bytes: Vec<u8>,
    /// One resolved anchor per block: its first key and the position of
    /// that key's entry.
    pub index: Vec<(String, usize)>,
    entries: Vec<(String, Option<String>)>,
}

impl SSTableReader {
    /// The table file image this reader was opened on.
    pub closed spec fn file(self) -> Seq<u8> {
        self.bytes@
    }

    /// The entries of the table, in file order.
    pub closed spec fn model(self) -> Seq<EntryModel> {
        entries_view(self.entries@)
    }

    /// The resolved block anchors: first key and entry position.
    pub closed spec fn anchors(self) -> Seq<(Seq<char>, int)> {
        self.index@.map_values(|a: (String, usize)| (a.0@, a.1 as int))
    }

    /// The image parses, and the decoded entries and resolved index
    /// reflect it.
    pub closed spec fn wf(self) -> bool {
        let pt = parse_table(self.bytes@);
        &&& pt is Some
        &&& pt->0.entries == entries_view(self.entries@)
        &&& pt->0.index.len() == self.index@.len()
        &&& forall|i: int|
            0 <= i < self.index@.len() ==> (#[trigger] self.index@[i]).1 < self.entries@.len()
                && self.index@[i].0@ == pt->0.index[i].0 && entries_view(
                self.entries@,
            )[self.index@[i].1 as int].0 == self.index@[i].0@
    }

    /// A well-formed reader decodes exactly what its file image parses
    /// to, with one resolved anchor per index entry.
    pub proof fn lemma_wf_parse(self)
        requires
            self.wf(),
        ensures
            parse_table(self.file()) is Some,
            parse_table(self.file())->0.entries == self.model(),
            self.anchors().len() == parse_table(self.file())->0.index.len(),
    {
    }

    /// A well-formed table holds a sorted run that fits the wire format.
    pub proof fn lemma_wf_model(self)
        requires
            self.wf(),
        ensures
            entries_sorted(self.model()),
            crate::codec::entries_enc_ok(self.model()),
            self.model().len() > 0 ==> self.anchors().len() > 0 && self.anchors()[0].0
                == self.model()[0].0,
    {
        let bb = self.bytes@;
        let idx_off = spec_u64_from_le_bytes(bb.subrange(bb.len() - 8, bb.len() as int)) as int;
        let data = bb.subrange(0, idx_off);
        let pt = parse_table(bb);
        assert(parse_entries(data) == Some(pt->0.entries));
        crate::sstable::lemma_parse_entries_enc_ok(data);
        if self.model().len() > 0 {
            assert(pt->0.index[0].0 == self.model()[0].0);
            assert(self.anchors()[0] == (self.index@[0].0@, self.index@[0].1 as int));
        }
    }

    /// Open a table image, decoding and checking it whole; a malformed
    /// image is corruption.
    pub fn new(bytes: Vec<u8>) -> (r: Result<SSTableReader, DbError>)
        ensures
            r is Ok <==> parse_table(bytes@) is Some,
            match r {
                Ok(t) => t.wf() && t.file() == bytes@,
                Err(e) => e == DbError::Corruption,
            },
    {
        let n = bytes.len();
        if n < 8 {
            return Err(DbError::Corruption);
        }
        let idx_off64 = read_u64(bytes.as_slice(), n - 8);
        proof {
            assert(bytes@.subrange(n - 8, n - 8 + 8) =~= bytes@.subrange(n - 8, n as int));
        }
        if idx_off64 > (n - 8) as u64 {
            return Err(DbError::Corruption);
        }
        let idx_off = idx_off64 as usize;
        let ghost data = bytes@.subrange(0, idx_off as int);
        let ghost idxb = bytes@.subrange(idx_off as int, n - 8);
        let dr = parse_data_region(bytes.as_slice(), idx_off);
        let (entries, offsets) = match dr {
            Some(x) => x,
            None => {
                return Err(DbError::Corruption);
            },
        };
        let ghost es = entries_view(entries@);
        let ir = parse_index_region(bytes.as_slice(), idx_off, n - 8);
        let anchors = match ir {
            Some(x) => x,
            None => {
                return Err(DbError::Corruption);
            },
        };
        let ghost ia = idx_pairs_view(anchors@);
        let index = match resolve_anchors(&entries, &offsets, &anchors) {
            Some(x) => x,
            None => {
                return Err(DbError::Corruption);
            },
        };
        if entries.len() > 0 {
            if anchors.len() == 0 {
                return Err(DbError::Corruption);
            }
            if anchors[0].1 != 0 {
                return Err(DbError::Corruption);
            }
            let key0_ok = anchors[0].0.eq(&entries[0].0);
            proof {
                assert(es[0] == entry_view(entries@[0]));
                assert(ia[0] == (anchors@[0].0@, anchors@[0].1));
            }
            if !key0_ok {
                return Err(DbError::Corruption);
            }
        }
        proof {
            assert(parse_table(bytes@) == Some(TableModel { entries: es, index: ia })) by {
                if es.len() > 0 {
                    assert(ia[0].0 == es[0].0);
                    assert(ia[0].1 == 0);
                }
                assert(table_shape_ok(es, ia));
            }
        }
        let r = SSTableReader { bytes, index, entries };
        proof {
            assert(r.wf()) by {
                let pt = parse_table(r.bytes@);
                assert(pt->0.entries == entries_view(r.entries@));
                assert(pt->0.index == ia);
            }
        }
        Ok(r)
    }

    /// Point lookup: pick the greatest anchor at or below the key, then
    /// scan entries forward until the key is met or passed.
    pub fn get(&self, key: &str) -> (r: SearchResult)
        requires
            self.wf(),
        ensures
            match r {
                SearchResult::Found(v) => lookup(self.model(), key@) == Some(Some(v@)),
                SearchResult::Deleted => lookup(self.model(), key@) == Some(None::<Seq<char>>),
                SearchResult::NotFound => lookup(self.model(), key@) is None,
            },
    {
        proof {
            self.lemma_wf_model();
        }
        let ghost es = self.model();
        if self.entries.len() == 0 {
            return SearchResult::NotFound;
        }
        let m = self.index.len();
        let mut found_anchor = false;
        let mut p: usize = 0;
        let mut i: usize = 0;
        let mut stop = false;
        while i < m && !stop
            invariant
                self.wf(),
                es == self.model(),
                m == self.index@.len(),
                0 <= i <= m,
                found_anchor ==> p < self.entries@.len() && !key_lt(key@, es[p as int].0),
                !found_anchor ==> i == 0,
                stop ==> i < m && key_lt(key@, self.index@[i as int].0@),
            decreases m - i + (if stop {
                0int
            } else {
                1int
            }),
        {
            let a = &self.index[i];
            match cmp_bytes(a.0.as_str().as_bytes(), key.as_bytes()) {
                ByteOrd::Lt => {
                    p = a.1;
                    found_anchor = true;
                    proof {
                        assert(es[a.1 as int].0 == a.0@);
                        lemma_key_lt_asymm(a.0@, key@);
                    }
                    i = i + 1;
                },
                ByteOrd::Eq => {
                    p = a.1;
                    found_anchor = true;
                    proof {
                        lemma_encode_utf8_injective(a.0@, key@);
                        assert(es[a.1 as int].0 == a.0@);
                        lemma_key_lt_irrefl(key@);
                    }
                    i = i + 1;
                },
                ByteOrd::Gt => {
                    stop = true;
                },
            }
        }
        if !found_anchor {
            proof {
                assert(es.len() > 0);
                assert(self.index@.len() > 0);
                assert(stop);
                assert(key_lt(key@, self.index@[0].0@));
                assert(self.index@[0].0@ == es[0].0);
                lemma_absent_at(es, key@, 0);
            }
            return SearchResult::NotFound;
        }
        let mut q = p;
        proof {
            assert forall|j: int| 0 <= j < q implies key_lt((#[trigger] es[j]).0, key@) by {
                assert(key_lt(es[j].0, es[p as int].0));
                if key_lt(es[p as int].0, key@) {
                    lemma_key_lt_trans(es[j].0, es[p as int].0, key@);
                } else {
                    crate::order::lemma_key_lt_total(key@, es[p as int].0);
                    assert(es[p as int].0 == key@);
                }
            }
        }
        let en = self.entries.len();
        while q < en
            invariant
                self.wf(),
                es == self.model(),
                en == self.entries@.len(),
                0 <= q <= en,
                forall|j: int| 0 <= j < q ==> key_lt((#[trigger] es[j]).0, key@),
            decreases en - q,
        {
            let e = &self.entries[q];
            proof {
                assert(es[q as int] == entry_view(self.entries@[q as int]));
            }
            match cmp_bytes(e.0.as_str().as_bytes(), key.as_bytes()) {
                ByteOrd::Lt => {
                    q = q + 1;
                },
                ByteOrd::Eq => {
                    proof {
                        lemma_encode_utf8_injective(e.0@, key@);
                        lemma_lookup_at(es, q as int);
                    }
                    match &e.1 {
                        Some(v) => {
                            return SearchResult::Found(v.clone());
                        },
                        None => {
                            return SearchResult::Deleted;
                        },
                    }
                },
                ByteOrd::Gt => {
                    proof {
                        lemma_absent_at(es, key@, q as int);
                    }
                    return SearchResult::NotFound;
                },
            }
        }
        proof {
            lemma_absent_at(es, key@, en as int);
        }
        SearchResult::NotFound
    }
}


/// The model of a run of live key–value pairs.
pub open spec fn pairs_view(v: Seq<(String, String)>) -> Seq<EntryModel> {
    v.map_values(|p: (String, String)| (p.0@, Some(p.1@)))
}

impl SSTableReader {
    /// All live pairs with `start <= key <= end`, in key order.
    pub fn scan(&self, start: &str, end: &str) -> (r: Vec<(String, String)>)
        requires
            self.wf(),
        ensures
            pairs_view(r@) == range_live(self.model(), start@, end@),
    {
        proof {
            self.lemma_wf_model();
        }
        let ghost es = self.model();
        let mut out: Vec<(String, String)> = Vec::new();
        if self.entries.len() == 0 {
            proof {
                assert(pairs_view(out@) =~= Seq::<EntryModel>::empty());
            }
            return out;
        }
        let m = self.index.len();
        let mut p: usize = 0;
        let mut i: usize = 0;
        let mut stop = false;
        while i < m && !stop
            invariant
                self.wf(),
                es == self.model(),
                m == self.index@.len(),
                0 <= i <= m,
                p < self.entries@.len(),
                forall|j: int| 0 <= j < p ==> key_lt((#[trigger] es[j]).0, start@),
                self.entries@.len() > 0,
            decreases m - i + (if stop {
                0int
            } else {
                1int
            }),
        {
            let a = &self.index[i];
            match cmp_bytes(a.0.as_str().as_bytes(), start.as_bytes()) {
                ByteOrd::Lt => {
                    p = a.1;
                    proof {
                        assert(es[a.1 as int].0 == a.0@);
                        assert forall|j: int| 0 <= j < p implies key_lt(
                            (#[trigger] es[j]).0,
                            start@,
                        ) by {
                            assert(key_lt(es[j].0, es[p as int].0));
                            lemma_key_lt_trans(es[j].0, es[p as int].0, start@);
                        }
                    }
                    i = i + 1;
                },
                ByteOrd::Eq => {
                    p = a.1;
                    proof {
                        lemma_encode_utf8_injective(a.0@, start@);
                        assert(es[a.1 as int].0 == a.0@);
                        assert forall|j: int| 0 <= j < p implies key_lt(
                            (#[trigger] es[j]).0,
                            start@,
                        ) by {
                            assert(key_lt(es[j].0, es[p as int].0));
                        }
                    }
                    i = i + 1;
                },
                ByteOrd::Gt => {
                    stop = true;
                },
            }
        }
        let mut q = p;
        proof {
            assert(range_live(es.take(q as int), start@, end@) =~= Seq::<EntryModel>::empty()) by {
                assert forall|j: int| 0 <= j < es.take(q as int).len() implies key_lt(
                    (#[trigger] es.take(q as int)[j]).0,
                    start@,
                ) by {
                    assert(es.take(q as int)[j] == es[j]);
                }
                lemma_range_live_below(es.take(q as int), start@, end@);
            }
            assert(pairs_view(out@) =~= range_live(es.take(q as int), start@, end@));
        }
        let en = self.entries.len();
        let mut hi_stop = false;
        while q < en && !hi_stop
            invariant
                self.wf(),
                es == self.model(),
                en == self.entries@.len(),
                0 <= q <= en,
                pairs_view(out@) == range_live(es.take(q as int), start@, end@),
                hi_stop ==> q < en && key_lt(end@, es[q as int].0),
            decreases en - q + (if hi_stop {
                0int
            } else {
                1int
            }),
        {
            let e = &self.entries[q];
            proof {
                assert(es[q as int] == entry_view(self.entries@[q as int]));
                assert(es.take((q + 1) as int) =~= es.take(q as int).push(es[q as int]));
                lemma_range_live_snoc(es.take(q as int), es[q as int], start@, end@);
            }
            let c1 = cmp_bytes(e.0.as_str().as_bytes(), start.as_bytes());
            if matches!(c1, ByteOrd::Lt) {
                proof {
                    assert(!in_range(es[q as int].0, start@, end@));
                }
                q = q + 1;
            } else {
                let c2 = cmp_bytes(e.0.as_str().as_bytes(), end.as_bytes());
                if matches!(c2, ByteOrd::Gt) {
                    proof {
                        assert(key_lt(end@, es[q as int].0));
                    }
                    hi_stop = true;
                } else {
                    proof {
                        assert(!key_lt(es[q as int].0, start@)) by {
                            match c1 {
                                ByteOrd::Lt => {},
                                ByteOrd::Eq => {
                                    lemma_encode_utf8_injective(e.0@, start@);
                                    lemma_key_lt_irrefl(start@);
                                },
                                ByteOrd::Gt => {
                                    lemma_key_lt_asymm(start@, es[q as int].0);
                                },
                            }
                        }
                        assert(!key_lt(end@, es[q as int].0)) by {
                            match c2 {
                                ByteOrd::Lt => {
                                    lemma_key_lt_asymm(es[q as int].0, end@);
                                },
                                ByteOrd::Eq => {
                                    lemma_encode_utf8_injective(e.0@, end@);
                                    lemma_key_lt_irrefl(end@);
                                },
                                ByteOrd::Gt => {},
                            }
                        }
                        assert(in_range(es[q as int].0, start@, end@));
                    }
                    match &e.1 {
                        Some(v) => {
                            let ghost out0 = out@;
                            let pair = (e.0.clone(), v.clone());
                            out.push(pair);
                            proof {
                                assert(pairs_view(out@) =~= range_live(
                                    es.take((q + 1) as int),
                                    start@,
                                    end@,
                                )) by {
                                    assert(out@ == out0.push(pair));
                                    assert forall|j: int|
                                        0 <= j < out@.len() implies pairs_view(out@)[j]
                                        == range_live(es.take((q + 1) as int), start@, end@)[j] by {
                                        assert(pairs_view(out@)[j] == (out@[j].0@, Some(
                                            out@[j].1@,
                                        )));
                                        if j < out0.len() {
                                            assert(out@[j] == out0[j]);
                                            assert(pairs_view(out0)[j] == (out0[j].0@, Some(
                                                out0[j].1@,
                                            )));
                                        } else {
                                            assert(out@[j] == pair);
                                        }
                                    }
                                }
                            }
                            q = q + 1;
                        },
                        None => {
                            proof {
                                assert(range_live(es.take((q + 1) as int), start@, end@)
                                    == range_live(es.take(q as int), start@, end@));
                            }
                            q = q + 1;
                        },
                    }
                }
            }
        }
        proof {
            if hi_stop {
                assert forall|j: int| q <= j < es.len() implies key_lt(
                    end@,
                    (#[trigger] es[j]).0,
                ) by {
                    if j > q {
                        assert(key_lt(es[q as int].0, es[j].0));
                        lemma_key_lt_trans(end@, es[q as int].0, es[j].0);
                    }
                }
                lemma_range_live_cut(es, q as int, start@, end@);
            } else {
                assert(es.take(q as int) =~= es);
            }
        }
        out
    }

    /// The entries of the table in file order, tombstones included.
    pub fn clone_entries(&self) -> (r: Vec<(String, Option<String>)>)
        ensures
            entries_view(r@) == self.model(),
    {
        let n = self.entries.len();
        let mut r: Vec<(String, Option<String>)> = Vec::new();
        let mut i: usize = 0;
        proof {
            assert(entries_view(r@) =~= self.model().take(0));
        }
        while i < n
            invariant
                n == self.entries@.len(),
                0 <= i <= n,
                entries_view(r@) =~= self.model().take(i as int),
            decreases n - i,
        {
            let e = &self.entries[i];
            let v2 = match &e.1 {
                Some(v) => Some(v.clone()),
                None => None,
            };
            let e2 = (e.0.clone(), v2);
            let ghost r0 = r@;
            proof {
                assert(entry_view(e2) == entry_view(self.entries@[i as int]));
                assert(entries_view(r0).len() == r0.len());
            }
            r.push(e2);
            proof {
                assert(r@ == r0.push(e2));
                assert(entries_view(r@) =~= self.model().take((i + 1) as int)) by {
                    assert(self.model()[i as int] == entry_view(self.entries@[i as int]));
                    assert forall|j: int| 0 <= j < r@.len() implies entries_view(r@)[j]
                        == self.model().take((i + 1) as int)[j] by {
                        assert(entries_view(r@)[j] == entry_view(r@[j]));
                        if j < i as int {
                            assert(r@[j] == r0[j]);
                            assert(entries_view(r0)[j] == entry_view(r0[j]));
                            assert(entries_view(r0)[j] == self.model().take(i as int)[j]);
                        }
                    }
                }
            }
            i = i + 1;
        }
        proof {
            assert(self.model().take(n as int) =~= self.model());
        }
        r
    }

    /// A copy of the table's file image.
    pub fn file_bytes(&self) -> (r: Vec<u8>)
        ensures
            r@ == self.file(),
    {
        slice_to_vec(self.bytes.as_slice())
    }

    /// Turn the reader into an iterator over its full entry stream.
    pub fn into_iter(self) -> (it: SSTableIterator)
        ensures
            it.wf(),
            it.remaining() == self.model(),
    {
        let it = SSTableIterator { entries: self.entries, pos: 0 };
        proof {
            assert(it.remaining() =~= entries_view(it.entries@));
        }
        it
    }
}

/// Iterator over a table's full `(key, value-or-tombstone)` stream.
pub struct SSTableIterator {
    entries: Vec<(String, Option<String>)>,
    pos: usize,
}

impl SSTableIterator {
    /// The entries not yet yielded.
    pub closed spec fn remaining(self) -> Seq<EntryModel> {
        entries_view(self.entries@).skip(self.pos as int)
    }

    pub closed spec fn wf(self) -> bool {
        self.pos <= self.entries@.len()
    }

    /// Yield the next entry of the stream, in file order.
    pub fn next(&mut self) -> (r: Option<(String, Option<String>)>)
        requires
            old(self).wf(),
        ensures
            final(self).wf(),
            match r {
                Some(e) => old(self).remaining().len() > 0 && entry_view(e) == old(
                    self,
                ).remaining()[0] && final(self).remaining() == old(self).remaining().drop_first(),
                None => old(self).remaining().len() == 0 && final(self).remaining() == old(
                    self,
                ).remaining(),
            },
    {
        if self.pos < self.entries.len() {
            let e = &self.entries[self.pos];
            let v2 = match &e.1 {
                Some(v) => Some(v.clone()),
                None => None,
            };
            let e2 = (e.0.clone(), v2);
            proof {
                assert(entry_view(e2) == entry_view(self.entries@[self.pos as int]));
                assert(old(self).remaining()[0] == entries_view(self.entries@)[self.pos as int]);
            }
            self.pos = self.pos + 1;
            proof {
                assert(final(self).remaining() =~= old(self).remaining().drop_first());
            }
            Some(e2)
        } else {
            proof {
                assert(old(self).remaining().len() == 0);
            }
            None
        }
    }
}

} // verus!



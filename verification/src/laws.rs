//! The store's governing laws, stated over the engine model.
//!
//! Point reads go through `lookup` on the run that replaying the
//! mutation history produces, so the laws about reads after writes are
//! stated and proved here once, over that model.
use vstd::prelude::*;

use crate::model::drop_tombstones;
use crate::model::entries_sorted;
use crate::model::first_hit;
use crate::model::in_range;
use crate::model::lemma_drop_tombstones;
use crate::model::lemma_lookup_index;
use crate::model::lemma_merge2;
use crate::model::lemma_merge_stack;
use crate::model::lemma_prefix_filter_lookup;
use crate::model::lemma_prefix_filter_sorted;
use crate::model::lemma_range_live_lookup;
use crate::model::lemma_range_live_sorted;
use crate::model::lemma_sorted_lookup_ext;
use crate::model::lemma_stack_lookup_some;
use crate::model::live_only;
use crate::model::range_live;
use crate::model::stack_lookup;
use crate::model::stack_sorted;
use crate::model::lemma_lookup_store_other;
use crate::model::lemma_lookup_store_same;
use crate::model::lemma_replay_snoc;
use crate::model::lookup;
use crate::model::merge2;
use crate::model::merge_stack;
use crate::model::prefix_filter;
use crate::model::replay_onto;
use crate::model::store;
use crate::model::EntryModel;

verus! {

/// A read after `set(k, v)` observes `v`: the stored entry is found
/// live under its key.
pub proof fn lemma_read_your_writes(es: Seq<EntryModel>, k: Seq<char>, v: Seq<char>)
    ensures
        lookup(store(es, k, Some(v)), k) == Some(Some(v)),
{
    lemma_lookup_store_same(es, k, Some(v));
}

/// A read after `del(k)` observes the tombstone, whatever was stored
/// before: the deletion shadows every older version.
pub proof fn lemma_delete_shadows(es: Seq<EntryModel>, k: Seq<char>)
    ensures
        lookup(store(es, k, None), k) == Some(None::<Seq<char>>),
{
    lemma_lookup_store_same(es, k, None);
}

/// The most recent mutation of `k` in a history, if any: a live value
/// for an insertion, a tombstone for a deletion.
pub open spec fn last_mutation(ops: Seq<EntryModel>, k: Seq<char>) -> Option<Option<Seq<char>>>
    decreases ops.len(),
{
    if ops.len() == 0 {
        None
    } else if ops.last().0 == k {
        Some(ops.last().1)
    } else {
        last_mutation(ops.drop_last(), k)
    }
}

/// Recency: after replaying any history of insertions and deletions, a
/// key reads as its most recent mutation, or as it read before the
/// history when it was never touched.
pub proof fn lemma_recency(acc: Seq<EntryModel>, ops: Seq<EntryModel>, k: Seq<char>)
    ensures
        lookup(replay_onto(acc, ops), k) == (match last_mutation(ops, k) {
            Some(o) => Some(o),
            None => lookup(acc, k),
        }),
    decreases ops.len(),
{
    if ops.len() > 0 {
        let o = ops.last();
        lemma_replay_snoc(acc, ops.drop_last(), o);
        assert(ops.drop_last().push(o) =~= ops);
        lemma_recency(acc, ops.drop_last(), k);
        if o.0 == k {
            lemma_lookup_store_same(replay_onto(acc, ops.drop_last()), o.0, o.1);
        } else {
            lemma_lookup_store_other(replay_onto(acc, ops.drop_last()), o.0, o.1, k);
        }
    }
}

/// Scanning each run of a stack for live entries of a range answers, for
/// keys in the range, as the stack itself, provided no run holds a
/// tombstone inside the range; keys outside the range read as absent.
proof fn lemma_stack_scans(ts: Seq<Seq<EntryModel>>, p: Seq<char>, hi: Seq<char>, k: Seq<char>)
    requires
        stack_sorted(ts),
        forall|i: int, j: int|
            0 <= i < ts.len() && 0 <= j < ts[i].len() && in_range(
                (#[trigger] ts[i][j]).0,
                p,
                hi,
            ) ==> ts[i][j].1 is Some,
    ensures
        in_range(k, p, hi) ==> stack_lookup(
            ts.map_values(|t: Seq<EntryModel>| range_live(t, p, hi)),
            k,
        ) == stack_lookup(ts, k),
        !in_range(k, p, hi) ==> stack_lookup(
            ts.map_values(|t: Seq<EntryModel>| range_live(t, p, hi)),
            k,
        ) is None,
    decreases ts.len(),
{
    let scans = ts.map_values(|t: Seq<EntryModel>| range_live(t, p, hi));
    if ts.len() > 0 {
        let tt = ts.drop_first();
        assert(stack_sorted(tt));
        assert forall|i: int, j: int|
            0 <= i < tt.len() && 0 <= j < tt[i].len() && in_range(
                (#[trigger] tt[i][j]).0,
                p,
                hi,
            ) implies tt[i][j].1 is Some by {
            assert(tt[i] == ts[i + 1]);
        }
        lemma_stack_scans(tt, p, hi, k);
        assert(scans[0] == range_live(ts[0], p, hi));
        assert(scans.drop_first() =~= tt.map_values(|t: Seq<EntryModel>| range_live(t, p, hi)));
        lemma_range_live_lookup(ts[0], p, hi, k);
        if in_range(k, p, hi) {
            assert(lookup(scans[0], k) == live_only(lookup(ts[0], k)));
            if lookup(ts[0], k) is Some {
                lemma_lookup_index(ts[0], k);
                let j = choose|j: int|
                    0 <= j < ts[0].len() && #[trigger] ts[0][j] == (k, lookup(ts[0], k)->0);
                assert(ts[0][j].1 is Some);
                assert(live_only(lookup(ts[0], k)) == lookup(ts[0], k));
            }
        }
    }
}

/// Prefix completeness: when no sealed table holds a tombstone in the
/// scanned range, and no stored key with the prefix lies beyond the
/// upper sentinel, the prefix query's overlay, with tombstones removed,
/// is exactly the store's live entries whose keys extend the prefix, in
/// ascending key order.
///
/// The two conditions name real boundaries.  A tombstone sealed into a
/// newer table does not shadow an older table's live value in a prefix
/// scan, because table scans drop tombstones before the tiers combine.
/// And a key that extends the prefix followed by U+10FFFF lies beyond
/// the scan's upper sentinel.
#[verifier::rlimit(100)]
#[verifier::spinoff_prover]
pub proof fn lemma_prefix_completeness(db: crate::database::Database, p: Seq<char>)
    requires
        db.wf(),
        forall|i: int, j: int|
            0 <= i < db.tables_model().len() && 0 <= j < db.tables_model()[i].len() && in_range(
                (#[trigger] db.tables_model()[i][j]).0,
                p,
                p + seq!['\u{10FFFF}'],
            ) ==> db.tables_model()[i][j].1 is Some,
        forall|i: int, j: int|
            0 <= i < db.tables_model().len() && 0 <= j < db.tables_model()[i].len()
                && crate::order::lex_prefix(
                vstd::utf8::encode_utf8(p),
                vstd::utf8::encode_utf8((#[trigger] db.tables_model()[i][j]).0),
            ) ==> !crate::order::key_lt(p + seq!['\u{10FFFF}'], db.tables_model()[i][j].0),
        forall|j: int|
            0 <= j < db.mt().len() && crate::order::lex_prefix(
                vstd::utf8::encode_utf8(p),
                vstd::utf8::encode_utf8((#[trigger] db.mt()[j]).0),
            ) ==> !crate::order::key_lt(p + seq!['\u{10FFFF}'], db.mt()[j].0),
    ensures
        drop_tombstones(db.prefix_overlay(p)) == prefix_filter(
            drop_tombstones(merge2(db.mt(), merge_stack(db.tables_model()))),
            p,
        ),
{
    let hi = p + seq!['\u{10FFFF}'];
    let mt = db.mt();
    let tm = db.tables_model();
    let scans = tm.map_values(|t: Seq<EntryModel>| range_live(t, p, hi));
    db.lemma_wf_runs_sorted();
    assert(stack_sorted(tm));
    assert forall|i: int| 0 <= i < scans.len() implies entries_sorted(#[trigger] scans[i]) by {
        assert(scans[i] == range_live(tm[i], p, hi));
        lemma_range_live_sorted(tm[i], p, hi);
    }
    assert(stack_sorted(scans));
    lemma_prefix_filter_sorted(mt, p);
    lemma_merge_stack(scans);
    lemma_merge_stack(tm);
    lemma_merge2(prefix_filter(mt, p), merge_stack(scans));
    lemma_merge2(mt, merge_stack(tm));
    let overlay = db.prefix_overlay(p);
    let full = merge2(mt, merge_stack(tm));
    lemma_drop_tombstones(overlay);
    lemma_drop_tombstones(full);
    lemma_prefix_filter_sorted(drop_tombstones(full), p);
    crate::order::lemma_encode_concat(p, seq!['\u{10FFFF}']);
    assert forall|k: Seq<char>| #[trigger]
        lookup(drop_tombstones(overlay), k) == lookup(
        prefix_filter(drop_tombstones(full), p),
        k,
    ) by {
        let kb = vstd::utf8::encode_utf8(k);
        let pb = vstd::utf8::encode_utf8(p);
        let pref = crate::order::lex_prefix(pb, kb);
        lemma_prefix_filter_lookup(mt, p, k);
        lemma_prefix_filter_lookup(drop_tombstones(full), p, k);
        lemma_stack_scans(tm, p, hi, k);
        assert(lookup(drop_tombstones(overlay), k) == live_only(lookup(overlay, k)));
        assert(lookup(overlay, k) == first_hit(
            lookup(prefix_filter(mt, p), k),
            lookup(merge_stack(scans), k),
        ));
        assert(lookup(merge_stack(scans), k) == stack_lookup(scans, k));
        assert(lookup(full, k) == first_hit(lookup(mt, k), stack_lookup(tm, k)));
        if !pref {
            assert(!in_range(k, p, hi)) by {
                if !crate::order::lex_lt(kb, pb) {
                    crate::order::lemma_nonprefix_above(
                        pb,
                        kb,
                        vstd::utf8::encode_utf8(seq!['\u{10FFFF}']),
                    );
                    assert(crate::order::key_lt(hi, k));
                }
            }
            assert(lookup(drop_tombstones(overlay), k) is None);
            assert(lookup(prefix_filter(drop_tombstones(full), p), k) is None);
        } else {
            crate::order::lemma_lex_prefix_ge(pb, kb);
            assert(!crate::order::key_lt(k, p));
            if crate::order::key_lt(hi, k) {
                // beyond the sentinel: nothing with this key is stored
                assert(!in_range(k, p, hi));
                assert(lookup(mt, k) is None) by {
                    if lookup(mt, k) is Some {
                        lemma_lookup_index(mt, k);
                        let j = choose|j: int|
                            0 <= j < mt.len() && #[trigger] mt[j] == (k, lookup(mt, k)->0);
                        assert(!crate::order::key_lt(hi, mt[j].0));
                    }
                }
                assert(stack_lookup(tm, k) is None) by {
                    if stack_lookup(tm, k) is Some {
                        lemma_stack_lookup_some(tm, k);
                        let i = choose|i: int|
                            0 <= i < tm.len() && lookup(#[trigger] tm[i], k) is Some;
                        lemma_lookup_index(tm[i], k);
                        let j = choose|j: int|
                            0 <= j < tm[i].len() && #[trigger] tm[i][j] == (k, lookup(
                                tm[i],
                                k,
                            )->0);
                        assert(!crate::order::key_lt(hi, tm[i][j].0));
                    }
                }
                assert(lookup(drop_tombstones(overlay), k) is None);
                assert(lookup(prefix_filter(drop_tombstones(full), p), k) is None);
            } else {
                assert(in_range(k, p, hi));
                assert(stack_lookup(scans, k) == stack_lookup(tm, k));
                assert(lookup(prefix_filter(mt, p), k) == lookup(mt, k));
                assert(lookup(overlay, k) == lookup(full, k));
                assert(lookup(prefix_filter(drop_tombstones(full), p), k) == lookup(
                    drop_tombstones(full),
                    k,
                ));
                assert(lookup(drop_tombstones(full), k) == live_only(lookup(full, k)));
            }
        }
    }
    lemma_sorted_lookup_ext(
        drop_tombstones(overlay),
        prefix_filter(drop_tombstones(full), p),
    );
}


/// One operation of the engine's mutating surface, as a history event:
/// an insertion, a deletion, a batch of insertions, a flush, or a
/// compaction.
pub ghost enum EngineOp {
    Put(Seq<char>, Seq<char>),
    Erase(Seq<char>),
    PutMany(Seq<(Seq<char>, Seq<char>)>),
    Seal,
    Merge,
}

/// What each operation's contract fixes of point reads: `set` writes its
/// key, `del` erases its key, `batch_set` applies its last write per
/// key, and `flush`, `compact` and `maybe_compact` preserve every read.
pub open spec fn op_observed(pre: crate::database::Database, post: crate::database::Database, op: EngineOp) -> bool {
    match op {
        EngineOp::Put(k, v) => forall|k2: Seq<char>| #[trigger]
            post.spec_get(k2) == (if k2 == k {
                Some(v)
            } else {
                pre.spec_get(k2)
            }),
        EngineOp::Erase(k) => forall|k2: Seq<char>| #[trigger]
            post.spec_get(k2) == (if k2 == k {
                None
            } else {
                pre.spec_get(k2)
            }),
        EngineOp::PutMany(es) => forall|k2: Seq<char>| #[trigger]
            post.spec_get(k2) == (match crate::database::last_write(
                es.map_values(|p: (Seq<char>, Seq<char>)| (p.0, Some(p.1))),
                k2,
            ) {
                Some(v) => Some(v),
                None => pre.spec_get(k2),
            }),
        EngineOp::Seal => forall|k2: Seq<char>| #[trigger] post.spec_get(k2) == pre.spec_get(k2),
        EngineOp::Merge => forall|k2: Seq<char>| #[trigger] post.spec_get(k2) == pre.spec_get(k2),
    }
}

/// A single-writer history: each state follows from the one before it by
/// one operation, as the operations' contracts describe.
pub open spec fn history(states: Seq<crate::database::Database>, ops: Seq<EngineOp>) -> bool {
    &&& states.len() == ops.len() + 1
    &&& forall|i: int|
        0 <= i < ops.len() ==> op_observed(states[i], states[i + 1], #[trigger] ops[i])
}

/// The most recent mutation of `k` in a history: the value of the last
/// insertion of `k` (directly or inside a batch), a tombstone for the
/// last deletion, or nothing when the history never touched `k`.
pub open spec fn last_effect(ops: Seq<EngineOp>, k: Seq<char>) -> Option<Option<Seq<char>>>
    decreases ops.len(),
{
    if ops.len() == 0 {
        None
    } else {
        match ops.last() {
            EngineOp::Put(k2, v) => if k2 == k {
                Some(Some(v))
            } else {
                last_effect(ops.drop_last(), k)
            },
            EngineOp::Erase(k2) => if k2 == k {
                Some(None)
            } else {
                last_effect(ops.drop_last(), k)
            },
            EngineOp::PutMany(es) => match crate::database::last_write(
                es.map_values(|p: (Seq<char>, Seq<char>)| (p.0, Some(p.1))),
                k,
            ) {
                Some(v) => Some(Some(v)),
                None => last_effect(ops.drop_last(), k),
            },
            EngineOp::Seal => last_effect(ops.drop_last(), k),
            EngineOp::Merge => last_effect(ops.drop_last(), k),
        }
    }
}

/// Recency over the engine: after any single-writer history of
/// insertions, deletions, batches, flushes and compactions, a point read
/// observes the most recent mutation of its key, or reads as the
/// initial state when the history never touched the key.
pub proof fn lemma_engine_recency(
    states: Seq<crate::database::Database>,
    ops: Seq<EngineOp>,
    k: Seq<char>,
)
    requires
        history(states, ops),
    ensures
        states.last().spec_get(k) == (match last_effect(ops, k) {
            Some(o) => o,
            None => states[0].spec_get(k),
        }),
    decreases ops.len(),
{
    if ops.len() > 0 {
        let sp = states.drop_last();
        let opp = ops.drop_last();
        assert(history(sp, opp)) by {
            assert forall|i: int|
                0 <= i < opp.len() implies op_observed(sp[i], sp[i + 1], #[trigger] opp[i]) by {
                assert(sp[i] == states[i]);
                assert(sp[i + 1] == states[i + 1]);
                assert(opp[i] == ops[i]);
                assert(op_observed(states[i], states[i + 1], ops[i]));
            }
        }
        lemma_engine_recency(sp, opp, k);
        assert(sp.last() == states[states.len() - 2]);
        assert(sp[0] == states[0]);
        let pre = states[states.len() - 2];
        let post = states.last();
        assert(op_observed(pre, post, ops.last())) by {
            assert(ops[ops.len() - 1] == ops.last());
            assert(states[ops.len() - 1] == pre);
            assert(states[ops.len() as int] == post);
        }
        match ops.last() {
            EngineOp::Put(k2, v) => {
                assert(post.spec_get(k) == (if k == k2 {
                    Some(v)
                } else {
                    pre.spec_get(k)
                }));
            },
            EngineOp::Erase(k2) => {
                assert(post.spec_get(k) == (if k == k2 {
                    None
                } else {
                    pre.spec_get(k)
                }));
            },
            EngineOp::PutMany(es) => {
                assert(post.spec_get(k) == (match crate::database::last_write(
                    es.map_values(|p: (Seq<char>, Seq<char>)| (p.0, Some(p.1))),
                    k,
                ) {
                    Some(v) => Some(v),
                    None => pre.spec_get(k),
                }));
            },
            EngineOp::Seal => {
                assert(post.spec_get(k) == pre.spec_get(k));
            },
            EngineOp::Merge => {
                assert(post.spec_get(k) == pre.spec_get(k));
            },
        }
    }
}

} // verus!



//! Mathematical model of a sorted run of entries.
//!
//! An entry pairs a key with either a live value (`Some`) or a tombstone
//! (`None`).  The memtable and every sorted table are modelled as sequences
//! of entries with strictly ascending keys.  This module defines lookup,
//! sorted insertion, the recency-respecting merge of runs, and tombstone
//! removal, together with the lemmas the engine contracts rest on.
use vstd::prelude::*;

use crate::order::key_lt;
use crate::order::lemma_key_lt_asymm;
use crate::order::lemma_key_lt_irrefl;
use crate::order::lemma_key_lt_total;
use crate::order::lemma_key_lt_trans;

verus! {

/// A key paired with a live value or a tombstone.
pub type EntryModel = (Seq<char>, Option<Seq<char>>);

/// Keys strictly ascend.
pub open spec fn entries_sorted(es: Seq<EntryModel>) -> bool {
    forall|i: int, j: int| 0 <= i < j < es.len() ==> key_lt(#[trigger] es[i].0, #[trigger] es[j].0)
}

/// `lo` is strictly below every key of `es`.
pub open spec fn key_below(lo: Seq<char>, es: Seq<EntryModel>) -> bool {
    forall|i: int| 0 <= i < es.len() ==> key_lt(lo, #[trigger] es[i].0)
}

/// The entry stored under `k`: absent, a tombstone, or a live value.
pub open spec fn lookup(es: Seq<EntryModel>, k: Seq<char>) -> Option<Option<Seq<char>>>
    decreases es.len(),
{
    if es.len() == 0 {
        None
    } else if es[0].0 == k {
        Some(es[0].1)
    } else {
        lookup(es.drop_first(), k)
    }
}

/// Sorted insertion of `k`, replacing an existing entry for `k`.
pub open spec fn store(es: Seq<EntryModel>, k: Seq<char>, v: Option<Seq<char>>) -> Seq<EntryModel>
    decreases es.len(),
{
    if es.len() == 0 {
        seq![(k, v)]
    } else if key_lt(k, es[0].0) {
        seq![(k, v)] + es
    } else if es[0].0 == k {
        seq![(k, v)] + es.drop_first()
    } else {
        seq![es[0]] + store(es.drop_first(), k, v)
    }
}

/// First result that is present.
pub open spec fn first_hit(a: Option<Option<Seq<char>>>, b: Option<Option<Seq<char>>>) -> Option<
    Option<Seq<char>>,
> {
    if a is Some {
        a
    } else {
        b
    }
}

/// Merge two sorted runs; on equal keys the entry of `a` (the newer run) wins.
pub open spec fn merge2(a: Seq<EntryModel>, b: Seq<EntryModel>) -> Seq<EntryModel>
    decreases a.len() + b.len(),
{
    if a.len() == 0 {
        b
    } else if b.len() == 0 {
        a
    } else if key_lt(a[0].0, b[0].0) {
        seq![a[0]] + merge2(a.drop_first(), b)
    } else if key_lt(b[0].0, a[0].0) {
        seq![b[0]] + merge2(a, b.drop_first())
    } else {
        seq![a[0]] + merge2(a.drop_first(), b.drop_first())
    }
}

/// Merge a stack of sorted runs, newest first; newer runs win on equal keys.
pub open spec fn merge_stack(ts: Seq<Seq<EntryModel>>) -> Seq<EntryModel>
    decreases ts.len(),
{
    if ts.len() == 0 {
        seq![]
    } else {
        merge2(ts[0], merge_stack(ts.drop_first()))
    }
}

/// Walk a stack of runs, newest first, and return the first run's answer for `k`.
pub open spec fn stack_lookup(ts: Seq<Seq<EntryModel>>, k: Seq<char>) -> Option<Option<Seq<char>>>
    decreases ts.len(),
{
    if ts.len() == 0 {
        None
    } else {
        first_hit(lookup(ts[0], k), stack_lookup(ts.drop_first(), k))
    }
}

/// Every run of the stack is sorted.
pub open spec fn stack_sorted(ts: Seq<Seq<EntryModel>>) -> bool {
    forall|i: int| 0 <= i < ts.len() ==> entries_sorted(#[trigger] ts[i])
}

/// Keep a lookup answer only when it is a live value.
pub open spec fn live_only(r: Option<Option<Seq<char>>>) -> Option<Option<Seq<char>>> {
    match r {
        Some(o) => if o is Some {
            Some(o)
        } else {
            None
        },
        None => None,
    }
}

/// Remove tombstones, keeping live entries in order.
pub open spec fn drop_tombstones(es: Seq<EntryModel>) -> Seq<EntryModel>
    decreases es.len(),
{
    if es.len() == 0 {
        seq![]
    } else if es[0].1 is Some {
        seq![es[0]] + drop_tombstones(es.drop_first())
    } else {
        drop_tombstones(es.drop_first())
    }
}

/// A key below a sorted run is never found in it.
pub proof fn lemma_lookup_below(lo: Seq<char>, es: Seq<EntryModel>)
    requires
        key_below(lo, es),
    ensures
        lookup(es, lo) is None,
    decreases es.len(),
{
    if es.len() > 0 {
        if es[0].0 == lo {
            lemma_key_lt_irrefl(lo);
        }
        assert(key_below(lo, es.drop_first()));
        lemma_lookup_below(lo, es.drop_first());
    }
}

/// Consing an entry below a sorted run keeps it sorted.
proof fn lemma_sorted_cons(e: EntryModel, es: Seq<EntryModel>)
    requires
        entries_sorted(es),
        key_below(e.0, es),
    ensures
        entries_sorted(seq![e] + es),
{
    let r = seq![e] + es;
    assert forall|i: int, j: int| 0 <= i < j < r.len() implies key_lt(r[i].0, r[j].0) by {
        if i > 0 {
            assert(r[i] == es[i - 1]);
            assert(r[j] == es[j - 1]);
        }
    }
}

/// `store` keeps the run sorted and keeps strict lower bounds that also
/// bound the new key.
pub proof fn lemma_store_sorted(es: Seq<EntryModel>, k: Seq<char>, v: Option<Seq<char>>)
    requires
        entries_sorted(es),
    ensures
        entries_sorted(store(es, k, v)),
        forall|lo: Seq<char>|
            key_below(lo, es) && key_lt(lo, k) ==> key_below(lo, #[trigger] store(es, k, v)),
    decreases es.len(),
{
    let r = store(es, k, v);
    if es.len() == 0 {
    } else if key_lt(k, es[0].0) {
        assert(key_below(k, es)) by {
            assert forall|i: int| 0 <= i < es.len() implies key_lt(k, es[i].0) by {
                if i > 0 {
                    lemma_key_lt_trans(k, es[0].0, es[i].0);
                }
            }
        }
        lemma_sorted_cons((k, v), es);
    } else if es[0].0 == k {
        assert(es.drop_first() =~= es.subrange(1, es.len() as int));
        assert(entries_sorted(es.drop_first()));
        assert(key_below(k, es.drop_first()));
        lemma_sorted_cons((k, v), es.drop_first());
    } else {
        if !key_lt(es[0].0, k) {
            lemma_key_lt_total(k, es[0].0);
        }
        assert(key_lt(es[0].0, k));
        assert(entries_sorted(es.drop_first()));
        lemma_store_sorted(es.drop_first(), k, v);
        assert(key_below(es[0].0, es.drop_first()));
        assert(key_below(es[0].0, store(es.drop_first(), k, v)));
        lemma_sorted_cons(es[0], store(es.drop_first(), k, v));
    }
}

/// Reading back the key just stored yields the stored value.
pub proof fn lemma_lookup_store_same(es: Seq<EntryModel>, k: Seq<char>, v: Option<Seq<char>>)
    ensures
        lookup(store(es, k, v), k) == Some(v),
    decreases es.len(),
{
    if es.len() == 0 {
    } else if key_lt(k, es[0].0) {
        let r = seq![(k, v)] + es;
        assert(r[0] == (k, v));
    } else if es[0].0 == k {
    } else {
        let r = seq![es[0]] + store(es.drop_first(), k, v);
        assert(r[0] == es[0]);
        lemma_key_lt_irrefl(k);
        assert(es[0].0 != k);
        assert(r.drop_first() =~= store(es.drop_first(), k, v));
        lemma_lookup_store_same(es.drop_first(), k, v);
    }
}

/// Storing one key leaves every other key unchanged.
pub proof fn lemma_lookup_store_other(
    es: Seq<EntryModel>,
    k: Seq<char>,
    v: Option<Seq<char>>,
    k2: Seq<char>,
)
    requires
        k2 != k,
    ensures
        lookup(store(es, k, v), k2) == lookup(es, k2),
    decreases es.len(),
{
    if es.len() == 0 {
        let r = seq![(k, v)];
        assert(store(es, k, v) == r);
        assert(r[0] == (k, v));
        assert(r[0].0 == k);
        assert(r.drop_first() =~= Seq::<EntryModel>::empty());
        assert(lookup(Seq::<EntryModel>::empty(), k2) is None);
        assert(lookup(r, k2) == lookup(r.drop_first(), k2)) by {
            assert(r.len() > 0);
            assert(r[0].0 != k2);
        }
        assert(lookup(r, k2) == lookup(es, k2));
    } else if key_lt(k, es[0].0) {
        let r = seq![(k, v)] + es;
        assert(store(es, k, v) == r);
        assert(r[0] == (k, v));
        assert(r[0].0 == k);
        assert(r.drop_first() =~= es);
        assert(lookup(r, k2) == lookup(r.drop_first(), k2)) by {
            assert(r.len() > 0);
            assert(r[0].0 != k2);
        }
        assert(lookup(r, k2) == lookup(es, k2));
    } else if es[0].0 == k {
        let r = seq![(k, v)] + es.drop_first();
        assert(store(es, k, v) == r);
        assert(r[0] == (k, v));
        assert(r.drop_first() =~= es.drop_first());
        assert(lookup(r, k2) == lookup(es.drop_first(), k2));
        assert(lookup(es, k2) == lookup(es.drop_first(), k2));
    } else {
        let r = seq![es[0]] + store(es.drop_first(), k, v);
        assert(store(es, k, v) == r);
        assert(r[0] == es[0]);
        assert(r.drop_first() =~= store(es.drop_first(), k, v));
        lemma_lookup_store_other(es.drop_first(), k, v, k2);
        assert(lookup(r, k2) == lookup(es, k2));
    }
}

/// The merge of two sorted runs is sorted, keeps common strict lower
/// bounds, and answers every lookup as the newer run first.
pub proof fn lemma_merge2(a: Seq<EntryModel>, b: Seq<EntryModel>)
    requires
        entries_sorted(a),
        entries_sorted(b),
    ensures
        entries_sorted(merge2(a, b)),
        forall|lo: Seq<char>|
            key_below(lo, a) && key_below(lo, b) ==> key_below(lo, #[trigger] merge2(a, b)),
        forall|k: Seq<char>|
            #[trigger] lookup(merge2(a, b), k) == first_hit(lookup(a, k), lookup(b, k)),
    decreases a.len() + b.len(),
{
    if a.len() == 0 {
    } else if b.len() == 0 {
    } else if key_lt(a[0].0, b[0].0) {
        let m = merge2(a.drop_first(), b);
        let r = seq![a[0]] + m;
        assert(entries_sorted(a.drop_first()));
        lemma_merge2(a.drop_first(), b);
        assert(key_below(a[0].0, b)) by {
            assert forall|i: int| 0 <= i < b.len() implies key_lt(a[0].0, b[i].0) by {
                if i > 0 {
                    lemma_key_lt_trans(a[0].0, b[0].0, b[i].0);
                }
            }
        }
        assert(key_below(a[0].0, a.drop_first()));
        assert(key_below(a[0].0, m));
        lemma_sorted_cons(a[0], m);
        assert forall|lo: Seq<char>|
            key_below(lo, a) && key_below(lo, b) implies key_below(lo, #[trigger] merge2(a, b)) by {
            assert(key_below(lo, a.drop_first()));
            assert(key_below(lo, m));
            assert forall|i: int| 0 <= i < r.len() implies key_lt(lo, #[trigger] r[i].0) by {
                if i > 0 {
                    assert(r[i] == m[i - 1]);
                } else {
                    assert(r[0] == a[0]);
                }
            }
        }
        assert forall|k: Seq<char>|
            #[trigger] lookup(r, k) == first_hit(lookup(a, k), lookup(b, k)) by {
            assert(r[0] == a[0]);
            assert(r.drop_first() =~= m);
            if a[0].0 != k {
                assert(lookup(r, k) == lookup(m, k));
            }
        }
    } else if key_lt(b[0].0, a[0].0) {
        let m = merge2(a, b.drop_first());
        let r = seq![b[0]] + m;
        assert(entries_sorted(b.drop_first()));
        lemma_merge2(a, b.drop_first());
        assert(key_below(b[0].0, a)) by {
            assert forall|i: int| 0 <= i < a.len() implies key_lt(b[0].0, a[i].0) by {
                if i > 0 {
                    lemma_key_lt_trans(b[0].0, a[0].0, a[i].0);
                }
            }
        }
        assert(key_below(b[0].0, b.drop_first()));
        assert(key_below(b[0].0, m));
        lemma_sorted_cons(b[0], m);
        assert forall|lo: Seq<char>|
            key_below(lo, a) && key_below(lo, b) implies key_below(lo, #[trigger] merge2(a, b)) by {
            assert(key_below(lo, b.drop_first()));
            assert(key_below(lo, m));
            assert forall|i: int| 0 <= i < r.len() implies key_lt(lo, #[trigger] r[i].0) by {
                if i > 0 {
                    assert(r[i] == m[i - 1]);
                } else {
                    assert(r[0] == b[0]);
                }
            }
        }
        assert forall|k: Seq<char>|
            #[trigger] lookup(r, k) == first_hit(lookup(a, k), lookup(b, k)) by {
            assert(r[0] == b[0]);
            assert(r.drop_first() =~= m);
            if b[0].0 == k {
                lemma_lookup_below(k, a);
            } else {
                assert(lookup(r, k) == lookup(m, k));
            }
        }
    } else {
        lemma_key_lt_total(a[0].0, b[0].0);
        let m = merge2(a.drop_first(), b.drop_first());
        let r = seq![a[0]] + m;
        assert(entries_sorted(a.drop_first()));
        assert(entries_sorted(b.drop_first()));
        lemma_merge2(a.drop_first(), b.drop_first());
        assert(key_below(a[0].0, a.drop_first()));
        assert(key_below(a[0].0, b.drop_first()));
        assert(key_below(a[0].0, m));
        lemma_sorted_cons(a[0], m);
        assert forall|lo: Seq<char>|
            key_below(lo, a) && key_below(lo, b) implies key_below(lo, #[trigger] merge2(a, b)) by {
            assert(key_below(lo, a.drop_first()));
            assert(key_below(lo, b.drop_first()));
            assert(key_below(lo, m));
            assert forall|i: int| 0 <= i < r.len() implies key_lt(lo, #[trigger] r[i].0) by {
                if i > 0 {
                    assert(r[i] == m[i - 1]);
                } else {
                    assert(r[0] == a[0]);
                }
            }
        }
        assert forall|k: Seq<char>|
            #[trigger] lookup(r, k) == first_hit(lookup(a, k), lookup(b, k)) by {
            assert(r[0] == a[0]);
            assert(r.drop_first() =~= m);
            if a[0].0 != k {
                assert(lookup(r, k) == lookup(m, k));
            }
        }
    }
}

/// Merging a stack of sorted runs is sorted and answers lookups newest first.
pub proof fn lemma_merge_stack(ts: Seq<Seq<EntryModel>>)
    requires
        stack_sorted(ts),
    ensures
        entries_sorted(merge_stack(ts)),
        forall|k: Seq<char>| #[trigger] lookup(merge_stack(ts), k) == stack_lookup(ts, k),
    decreases ts.len(),
{
    if ts.len() > 0 {
        assert(stack_sorted(ts.drop_first()));
        lemma_merge_stack(ts.drop_first());
        assert(entries_sorted(ts[0]));
        lemma_merge2(ts[0], merge_stack(ts.drop_first()));
    }
}

/// Dropping tombstones keeps the run sorted, keeps strict lower bounds, and
/// keeps exactly the live lookups.
pub proof fn lemma_drop_tombstones(es: Seq<EntryModel>)
    requires
        entries_sorted(es),
    ensures
        entries_sorted(drop_tombstones(es)),
        forall|lo: Seq<char>|
            key_below(lo, es) ==> key_below(lo, #[trigger] drop_tombstones(es)),
        forall|k: Seq<char>|
            #[trigger] lookup(drop_tombstones(es), k) == live_only(lookup(es, k)),
        forall|i: int|
            0 <= i < drop_tombstones(es).len() ==> (#[trigger] drop_tombstones(es)[i]).1 is Some,
    decreases es.len(),
{
    if es.len() > 0 {
        assert(entries_sorted(es.drop_first()));
        lemma_drop_tombstones(es.drop_first());
        assert(key_below(es[0].0, es.drop_first()));
        let d = drop_tombstones(es.drop_first());
        if es[0].1 is Some {
            let r = seq![es[0]] + d;
            assert(key_below(es[0].0, d));
            lemma_sorted_cons(es[0], d);
            assert forall|lo: Seq<char>|
                key_below(lo, es) implies key_below(lo, #[trigger] drop_tombstones(es)) by {
                assert(key_below(lo, es.drop_first()));
                assert(key_below(lo, d));
                assert forall|i: int| 0 <= i < r.len() implies key_lt(lo, #[trigger] r[i].0) by {
                    if i > 0 {
                        assert(r[i] == d[i - 1]);
                    } else {
                        assert(r[0] == es[0]);
                    }
                }
            }
            assert forall|k: Seq<char>|
                #[trigger] lookup(r, k) == live_only(lookup(es, k)) by {
                assert(r[0] == es[0]);
                assert(r.drop_first() =~= d);
                assert(lookup(d, k) == live_only(lookup(es.drop_first(), k)));
                if es[0].0 != k {
                    assert(lookup(r, k) == lookup(d, k));
                    assert(lookup(es, k) == lookup(es.drop_first(), k));
                }
            }
            assert forall|i: int| 0 <= i < r.len() implies (#[trigger] r[i]).1 is Some by {
                if i > 0 {
                    assert(r[i] == d[i - 1]);
                }
            }
        } else {
            assert forall|lo: Seq<char>|
                key_below(lo, es) implies key_below(lo, #[trigger] drop_tombstones(es)) by {
                assert(key_below(lo, es.drop_first()));
                assert(key_below(lo, d));
            }
            assert forall|k: Seq<char>|
                #[trigger] lookup(d, k) == live_only(lookup(es, k)) by {
                assert(lookup(d, k) == live_only(lookup(es.drop_first(), k)));
                if es[0].0 == k {
                    assert(key_below(k, es.drop_first()));
                    lemma_lookup_below(k, es.drop_first());
                } else {
                    assert(lookup(es, k) == lookup(es.drop_first(), k));
                }
            }
        }
    }
}


/// A key is absent exactly when no entry carries it.
pub proof fn lemma_lookup_absent(es: Seq<EntryModel>, k: Seq<char>)
    ensures
        (lookup(es, k) is None) <==> (forall|j: int| 0 <= j < es.len() ==> (#[trigger] es[j]).0 != k),
    decreases es.len(),
{
    if es.len() > 0 {
        let d = es.drop_first();
        lemma_lookup_absent(d, k);
        if es[0].0 != k {
            if forall|j: int| 0 <= j < es.len() ==> (#[trigger] es[j]).0 != k {
                assert forall|j: int| 0 <= j < d.len() implies (#[trigger] d[j]).0 != k by {
                    assert(d[j] == es[j + 1]);
                }
            } else {
                let j0 = choose|j: int| 0 <= j < es.len() && (#[trigger] es[j]).0 == k;
                assert(j0 > 0);
                assert(d[j0 - 1] == es[j0]);
                assert(!(forall|j: int| 0 <= j < d.len() ==> (#[trigger] d[j]).0 != k));
            }
        }
    }
}

/// In a sorted run the lookup of an entry's own key yields that entry.
pub proof fn lemma_lookup_at(es: Seq<EntryModel>, i: int)
    requires
        entries_sorted(es),
        0 <= i < es.len(),
    ensures
        lookup(es, es[i].0) == Some(es[i].1),
    decreases i,
{
    if i > 0 {
        lemma_key_lt_irrefl(es[i].0);
        assert(es[0].0 != es[i].0);
        assert(entries_sorted(es.drop_first()));
        assert(es.drop_first()[i - 1] == es[i]);
        lemma_lookup_at(es.drop_first(), i - 1);
    }
}

/// Where `store` lands: replacing in place, or inserting before the first
/// key that is not smaller.
pub proof fn lemma_store_at(es: Seq<EntryModel>, k: Seq<char>, v: Option<Seq<char>>, i: int)
    requires
        entries_sorted(es),
        0 <= i <= es.len(),
        forall|j: int| 0 <= j < i ==> key_lt((#[trigger] es[j]).0, k),
        i < es.len() ==> !key_lt(es[i].0, k),
    ensures
        i < es.len() && es[i].0 == k ==> store(es, k, v) == es.update(i, (k, v)),
        (i == es.len() || es[i].0 != k) ==> store(es, k, v) == es.take(i) + seq![(k, v)] + es.skip(
            i,
        ),
    decreases es.len(),
{
    if es.len() == 0 {
        assert(store(es, k, v) =~= es.take(0) + seq![(k, v)] + es.skip(0));
    } else if i == 0 {
        if es[0].0 == k {
            assert(store(es, k, v) =~= es.update(0, (k, v)));
        } else {
            if !key_lt(k, es[0].0) {
                lemma_key_lt_total(k, es[0].0);
            }
            assert(key_lt(k, es[0].0));
            assert(store(es, k, v) =~= es.take(0) + seq![(k, v)] + es.skip(0));
        }
    } else {
        assert(key_lt(es[0].0, k));
        lemma_key_lt_asymm(es[0].0, k);
        lemma_key_lt_irrefl(k);
        assert(es[0].0 != k);
        assert(entries_sorted(es.drop_first()));
        assert(forall|j: int| 0 <= j < i - 1
            ==> key_lt((#[trigger] es.drop_first()[j]).0, k));
        assert(i - 1 < es.drop_first().len() ==> !key_lt(es.drop_first()[i - 1].0, k));
        lemma_store_at(es.drop_first(), k, v, i - 1);
        let tail = store(es.drop_first(), k, v);
        assert(store(es, k, v) == seq![es[0]] + tail);
        if i < es.len() && es[i].0 == k {
            assert(es.drop_first()[i - 1] == es[i]);
            assert(tail == es.drop_first().update(i - 1, (k, v)));
            assert(seq![es[0]] + tail =~= es.update(i, (k, v)));
        } else {
            assert(tail == es.drop_first().take(i - 1) + seq![(k, v)] + es.drop_first().skip(i - 1));
            assert(seq![es[0]] + tail =~= es.take(i) + seq![(k, v)] + es.skip(i));
        }
    }
}


/// `lo <= k <= hi` in key order.
pub open spec fn in_range(k: Seq<char>, lo: Seq<char>, hi: Seq<char>) -> bool {
    !key_lt(k, lo) && !key_lt(hi, k)
}

/// The live entries whose keys lie in `[lo, hi]`, in order.
pub open spec fn range_live(es: Seq<EntryModel>, lo: Seq<char>, hi: Seq<char>) -> Seq<EntryModel>
    decreases es.len(),
{
    if es.len() == 0 {
        seq![]
    } else if es[0].1 is Some && in_range(es[0].0, lo, hi) {
        seq![es[0]] + range_live(es.drop_first(), lo, hi)
    } else {
        range_live(es.drop_first(), lo, hi)
    }
}

/// Appending one entry extends the range filter by at most that entry.
pub proof fn lemma_range_live_snoc(es: Seq<EntryModel>, e: EntryModel, lo: Seq<char>, hi: Seq<char>)
    ensures
        range_live(es.push(e), lo, hi) == if e.1 is Some && in_range(e.0, lo, hi) {
            range_live(es, lo, hi).push(e)
        } else {
            range_live(es, lo, hi)
        },
    decreases es.len(),
{
    if es.len() == 0 {
        assert(es.push(e)[0] == e);
        assert(es.push(e).drop_first() =~= Seq::<EntryModel>::empty());
        assert(range_live(Seq::<EntryModel>::empty(), lo, hi) == Seq::<EntryModel>::empty());
        if e.1 is Some && in_range(e.0, lo, hi) {
            assert(range_live(es.push(e), lo, hi) =~= range_live(es, lo, hi).push(e));
        }
    } else {
        assert(es.push(e)[0] == es[0]);
        assert(es.push(e).drop_first() =~= es.drop_first().push(e));
        lemma_range_live_snoc(es.drop_first(), e, lo, hi);
        if e.1 is Some && in_range(e.0, lo, hi) {
            assert(range_live(es.push(e), lo, hi) =~= range_live(es, lo, hi).push(e));
        } else {
            assert(range_live(es.push(e), lo, hi) =~= range_live(es, lo, hi));
        }
    }
}

/// Entries entirely below the range contribute nothing.
pub proof fn lemma_range_live_below(es: Seq<EntryModel>, lo: Seq<char>, hi: Seq<char>)
    requires
        forall|j: int| 0 <= j < es.len() ==> key_lt((#[trigger] es[j]).0, lo),
    ensures
        range_live(es, lo, hi) == Seq::<EntryModel>::empty(),
    decreases es.len(),
{
    if es.len() > 0 {
        assert(key_lt(es[0].0, lo));
        assert(!in_range(es[0].0, lo, hi)) by {
            if !key_lt(es[0].0, lo) {
            }
        }
        lemma_range_live_below(es.drop_first(), lo, hi);
    }
}

/// A sorted run past the upper bound contributes nothing more.
pub proof fn lemma_range_live_cut(es: Seq<EntryModel>, q: int, lo: Seq<char>, hi: Seq<char>)
    requires
        entries_sorted(es),
        0 <= q <= es.len(),
        forall|j: int| q <= j < es.len() ==> key_lt(hi, (#[trigger] es[j]).0),
    ensures
        range_live(es, lo, hi) == range_live(es.take(q), lo, hi),
    decreases es.len(),
{
    if es.len() == 0 {
        assert(es.take(q) =~= es);
    } else if q == 0 {
        assert forall|j: int| 0 <= j < es.len() implies !in_range((#[trigger] es[j]).0, lo, hi) by {
            assert(key_lt(hi, es[j].0));
        }
        assert(range_live(es, lo, hi) =~= Seq::<EntryModel>::empty()) by {
            lemma_range_live_all_out(es, lo, hi);
        }
        assert(es.take(0) =~= Seq::<EntryModel>::empty());
    } else {
        assert(entries_sorted(es.drop_first()));
        assert forall|j: int| q - 1 <= j < es.drop_first().len() implies key_lt(
            hi,
            (#[trigger] es.drop_first()[j]).0,
        ) by {
            assert(es.drop_first()[j] == es[j + 1]);
        }
        lemma_range_live_cut(es.drop_first(), q - 1, lo, hi);
        assert(es.take(q)[0] == es[0]);
        assert(es.take(q).drop_first() =~= es.drop_first().take(q - 1));
        if es[0].1 is Some && in_range(es[0].0, lo, hi) {
            assert(range_live(es, lo, hi) =~= range_live(es.take(q), lo, hi));
        } else {
            assert(range_live(es, lo, hi) =~= range_live(es.take(q), lo, hi));
        }
    }
}

/// A run with every key out of range contributes nothing.
pub proof fn lemma_range_live_all_out(es: Seq<EntryModel>, lo: Seq<char>, hi: Seq<char>)
    requires
        forall|j: int| 0 <= j < es.len() ==> !in_range((#[trigger] es[j]).0, lo, hi),
    ensures
        range_live(es, lo, hi) == Seq::<EntryModel>::empty(),
    decreases es.len(),
{
    if es.len() > 0 {
        lemma_range_live_all_out(es.drop_first(), lo, hi);
    }
}


/// Every entry of a merge comes from one of the two runs.
pub proof fn lemma_merge2_members(a: Seq<EntryModel>, b: Seq<EntryModel>)
    ensures
        forall|i: int|
            0 <= i < merge2(a, b).len() ==> a.contains(#[trigger] merge2(a, b)[i]) || b.contains(
                merge2(a, b)[i],
            ),
    decreases a.len() + b.len(),
{
    if a.len() == 0 {
    } else if b.len() == 0 {
    } else {
        let m = merge2(a, b);
        if key_lt(a[0].0, b[0].0) {
            lemma_merge2_members(a.drop_first(), b);
            let t = merge2(a.drop_first(), b);
            assert forall|i: int|
                0 <= i < m.len() implies a.contains(#[trigger] m[i]) || b.contains(m[i]) by {
                if i == 0 {
                    assert(m[0] == a[0]);
                    assert(a[0] == a[0]);
                } else {
                    assert(m[i] == t[i - 1]);
                    if a.drop_first().contains(t[i - 1]) {
                        let w = choose|w: int|
                            0 <= w < a.drop_first().len() && a.drop_first()[w] == t[i - 1];
                        assert(a[w + 1] == t[i - 1]);
                    }
                }
            }
        } else if key_lt(b[0].0, a[0].0) {
            lemma_merge2_members(a, b.drop_first());
            let t = merge2(a, b.drop_first());
            assert forall|i: int|
                0 <= i < m.len() implies a.contains(#[trigger] m[i]) || b.contains(m[i]) by {
                if i == 0 {
                    assert(m[0] == b[0]);
                } else {
                    assert(m[i] == t[i - 1]);
                    if b.drop_first().contains(t[i - 1]) {
                        let w = choose|w: int|
                            0 <= w < b.drop_first().len() && b.drop_first()[w] == t[i - 1];
                        assert(b[w + 1] == t[i - 1]);
                    }
                }
            }
        } else {
            lemma_merge2_members(a.drop_first(), b.drop_first());
            let t = merge2(a.drop_first(), b.drop_first());
            assert forall|i: int|
                0 <= i < m.len() implies a.contains(#[trigger] m[i]) || b.contains(m[i]) by {
                if i == 0 {
                    assert(m[0] == a[0]);
                } else {
                    assert(m[i] == t[i - 1]);
                    if a.drop_first().contains(t[i - 1]) {
                        let w = choose|w: int|
                            0 <= w < a.drop_first().len() && a.drop_first()[w] == t[i - 1];
                        assert(a[w + 1] == t[i - 1]);
                    } else if b.drop_first().contains(t[i - 1]) {
                        let w = choose|w: int|
                            0 <= w < b.drop_first().len() && b.drop_first()[w] == t[i - 1];
                        assert(b[w + 1] == t[i - 1]);
                    }
                }
            }
        }
    }
}

/// Every live entry kept by the tombstone filter comes from the run.
pub proof fn lemma_drop_tombstones_members(es: Seq<EntryModel>)
    ensures
        forall|i: int|
            0 <= i < drop_tombstones(es).len() ==> es.contains(#[trigger] drop_tombstones(es)[i]),
    decreases es.len(),
{
    if es.len() > 0 {
        lemma_drop_tombstones_members(es.drop_first());
        let t = drop_tombstones(es.drop_first());
        let d = drop_tombstones(es);
        assert forall|i: int| 0 <= i < d.len() implies es.contains(#[trigger] d[i]) by {
            if es[0].1 is Some {
                if i == 0 {
                    assert(d[0] == es[0]);
                } else {
                    assert(d[i] == t[i - 1]);
                    let w = choose|w: int|
                        0 <= w < es.drop_first().len() && es.drop_first()[w] == t[i - 1];
                    assert(es[w + 1] == t[i - 1]);
                }
            } else {
                assert(d[i] == t[i]);
                let w = choose|w: int|
                    0 <= w < es.drop_first().len() && es.drop_first()[w] == t[i];
                assert(es[w + 1] == t[i]);
            }
        }
    }
}


/// When a sorted scan stopped before a larger key, the key is absent.
pub proof fn lemma_absent_at(es: Seq<EntryModel>, k: Seq<char>, i: int)
    requires
        entries_sorted(es),
        0 <= i <= es.len(),
        forall|j: int| 0 <= j < i ==> key_lt((#[trigger] es[j]).0, k),
        i < es.len() ==> key_lt(k, es[i].0),
    ensures
        lookup(es, k) is None,
{
    assert forall|j: int| 0 <= j < es.len() implies (#[trigger] es[j]).0 != k by {
        if j < i {
            lemma_key_lt_irrefl(k);
            if es[j].0 == k {
                assert(key_lt(k, k));
            }
        } else {
            if j > i {
                lemma_key_lt_trans(k, es[i].0, es[j].0);
            }
            lemma_key_lt_irrefl(k);
            if es[j].0 == k {
                assert(key_lt(k, k));
            }
        }
    }
    lemma_lookup_absent(es, k);
}


/// Replay a sequence of operations onto a sorted run, oldest first.
pub open spec fn replay_onto(acc: Seq<EntryModel>, ops: Seq<EntryModel>) -> Seq<EntryModel>
    decreases ops.len(),
{
    if ops.len() == 0 {
        acc
    } else {
        replay_onto(store(acc, ops[0].0, ops[0].1), ops.drop_first())
    }
}

/// Replaying one more operation stores it into the replayed run.
pub proof fn lemma_replay_snoc(acc: Seq<EntryModel>, ops: Seq<EntryModel>, o: EntryModel)
    ensures
        replay_onto(acc, ops.push(o)) == store(replay_onto(acc, ops), o.0, o.1),
    decreases ops.len(),
{
    if ops.len() == 0 {
        assert(ops.push(o)[0] == o);
        assert(ops.push(o).drop_first() =~= Seq::<EntryModel>::empty());
        assert(replay_onto(store(acc, o.0, o.1), Seq::<EntryModel>::empty()) == store(
            acc,
            o.0,
            o.1,
        ));
    } else {
        assert(ops.push(o)[0] == ops[0]);
        assert(ops.push(o).drop_first() =~= ops.drop_first().push(o));
        lemma_replay_snoc(store(acc, ops[0].0, ops[0].1), ops.drop_first(), o);
    }
}

/// Replaying preserves sortedness of the run.
pub proof fn lemma_replay_sorted(acc: Seq<EntryModel>, ops: Seq<EntryModel>)
    requires
        entries_sorted(acc),
    ensures
        entries_sorted(replay_onto(acc, ops)),
    decreases ops.len(),
{
    if ops.len() > 0 {
        lemma_store_sorted(acc, ops[0].0, ops[0].1);
        lemma_replay_sorted(store(acc, ops[0].0, ops[0].1), ops.drop_first());
    }
}


/// Replaying a concatenation replays the parts in turn.
pub proof fn lemma_replay_concat(acc: Seq<EntryModel>, a: Seq<EntryModel>, b: Seq<EntryModel>)
    ensures
        replay_onto(acc, a + b) == replay_onto(replay_onto(acc, a), b),
    decreases a.len(),
{
    if a.len() == 0 {
        assert(a + b =~= b);
    } else {
        assert((a + b)[0] == a[0]);
        assert((a + b).drop_first() =~= a.drop_first() + b);
        lemma_replay_concat(store(acc, a[0].0, a[0].1), a.drop_first(), b);
    }
}


/// Storing never shrinks a run and always leaves it non-empty.
pub proof fn lemma_store_len(es: Seq<EntryModel>, k: Seq<char>, v: Option<Seq<char>>)
    ensures
        store(es, k, v).len() >= es.len(),
        store(es, k, v).len() >= 1,
    decreases es.len(),
{
    if es.len() == 0 {
    } else if key_lt(k, es[0].0) {
    } else if es[0].0 == k {
    } else {
        lemma_store_len(es.drop_first(), k, v);
    }
}

/// Replaying never shrinks the run; any operation leaves it non-empty.
pub proof fn lemma_replay_len(acc: Seq<EntryModel>, ops: Seq<EntryModel>)
    ensures
        replay_onto(acc, ops).len() >= acc.len(),
        ops.len() > 0 ==> replay_onto(acc, ops).len() >= 1,
    decreases ops.len(),
{
    if ops.len() > 0 {
        lemma_store_len(acc, ops[0].0, ops[0].1);
        lemma_replay_len(store(acc, ops[0].0, ops[0].1), ops.drop_first());
    }
}


/// Appending one entry extends the tombstone filter by at most that entry.
pub proof fn lemma_drop_tombstones_snoc(es: Seq<EntryModel>, e: EntryModel)
    ensures
        drop_tombstones(es.push(e)) == if e.1 is Some {
            drop_tombstones(es).push(e)
        } else {
            drop_tombstones(es)
        },
    decreases es.len(),
{
    if es.len() == 0 {
        assert(es.push(e)[0] == e);
        assert(es.push(e).drop_first() =~= Seq::<EntryModel>::empty());
        assert(drop_tombstones(Seq::<EntryModel>::empty()) == Seq::<EntryModel>::empty());
        if e.1 is Some {
            assert(drop_tombstones(es.push(e)) =~= drop_tombstones(es).push(e));
        }
    } else {
        assert(es.push(e)[0] == es[0]);
        assert(es.push(e).drop_first() =~= es.drop_first().push(e));
        lemma_drop_tombstones_snoc(es.drop_first(), e);
        if e.1 is Some {
            assert(drop_tombstones(es.push(e)) =~= drop_tombstones(es).push(e));
        } else {
            assert(drop_tombstones(es.push(e)) =~= drop_tombstones(es));
        }
    }
}


/// Filtering a sorted run to a range keeps it sorted and keeps strict
/// lower bounds.
pub proof fn lemma_range_live_sorted(es: Seq<EntryModel>, lo: Seq<char>, hi: Seq<char>)
    requires
        entries_sorted(es),
    ensures
        entries_sorted(range_live(es, lo, hi)),
        forall|b: Seq<char>| key_below(b, es) ==> key_below(b, #[trigger] range_live(es, lo, hi)),
    decreases es.len(),
{
    if es.len() > 0 {
        assert(entries_sorted(es.drop_first()));
        lemma_range_live_sorted(es.drop_first(), lo, hi);
        assert(key_below(es[0].0, es.drop_first()));
        let d = range_live(es.drop_first(), lo, hi);
        if es[0].1 is Some && in_range(es[0].0, lo, hi) {
            let r = seq![es[0]] + d;
            assert(key_below(es[0].0, d));
            lemma_sorted_cons(es[0], d);
            assert forall|b: Seq<char>|
                key_below(b, es) implies key_below(b, #[trigger] range_live(es, lo, hi)) by {
                assert(key_below(b, es.drop_first()));
                assert(key_below(b, d));
                assert forall|i: int| 0 <= i < r.len() implies key_lt(b, #[trigger] r[i].0) by {
                    if i > 0 {
                        assert(r[i] == d[i - 1]);
                    } else {
                        assert(r[0] == es[0]);
                    }
                }
            }
        } else {
            assert forall|b: Seq<char>|
                key_below(b, es) implies key_below(b, #[trigger] range_live(es, lo, hi)) by {
                assert(key_below(b, es.drop_first()));
                assert(key_below(b, d));
            }
        }
    }
}

/// The entries whose keys extend the byte prefix `p`, in order.
pub open spec fn prefix_filter(es: Seq<EntryModel>, p: Seq<char>) -> Seq<EntryModel>
    decreases es.len(),
{
    if es.len() == 0 {
        seq![]
    } else if crate::order::lex_prefix(
        vstd::utf8::encode_utf8(p),
        vstd::utf8::encode_utf8(es[0].0),
    ) {
        seq![es[0]] + prefix_filter(es.drop_first(), p)
    } else {
        prefix_filter(es.drop_first(), p)
    }
}

/// Appending one entry extends the prefix filter by at most that entry.
pub proof fn lemma_prefix_filter_snoc(es: Seq<EntryModel>, e: EntryModel, p: Seq<char>)
    ensures
        prefix_filter(es.push(e), p) == if crate::order::lex_prefix(
            vstd::utf8::encode_utf8(p),
            vstd::utf8::encode_utf8(e.0),
        ) {
            prefix_filter(es, p).push(e)
        } else {
            prefix_filter(es, p)
        },
    decreases es.len(),
{
    if es.len() == 0 {
        assert(es.push(e)[0] == e);
        assert(es.push(e).drop_first() =~= Seq::<EntryModel>::empty());
        assert(prefix_filter(Seq::<EntryModel>::empty(), p) == Seq::<EntryModel>::empty());
        if crate::order::lex_prefix(vstd::utf8::encode_utf8(p), vstd::utf8::encode_utf8(e.0)) {
            assert(prefix_filter(es.push(e), p) =~= prefix_filter(es, p).push(e));
        }
    } else {
        assert(es.push(e)[0] == es[0]);
        assert(es.push(e).drop_first() =~= es.drop_first().push(e));
        lemma_prefix_filter_snoc(es.drop_first(), e, p);
        if crate::order::lex_prefix(vstd::utf8::encode_utf8(p), vstd::utf8::encode_utf8(e.0)) {
            assert(prefix_filter(es.push(e), p) =~= prefix_filter(es, p).push(e));
        } else {
            assert(prefix_filter(es.push(e), p) =~= prefix_filter(es, p));
        }
    }
}

/// Filtering a sorted run by prefix keeps it sorted.
pub proof fn lemma_prefix_filter_sorted(es: Seq<EntryModel>, p: Seq<char>)
    requires
        entries_sorted(es),
    ensures
        entries_sorted(prefix_filter(es, p)),
        forall|b: Seq<char>| key_below(b, es) ==> key_below(b, #[trigger] prefix_filter(es, p)),
    decreases es.len(),
{
    if es.len() > 0 {
        assert(entries_sorted(es.drop_first()));
        lemma_prefix_filter_sorted(es.drop_first(), p);
        assert(key_below(es[0].0, es.drop_first()));
        let d = prefix_filter(es.drop_first(), p);
        if crate::order::lex_prefix(vstd::utf8::encode_utf8(p), vstd::utf8::encode_utf8(es[0].0)) {
            let r = seq![es[0]] + d;
            assert(key_below(es[0].0, d));
            lemma_sorted_cons(es[0], d);
            assert forall|b: Seq<char>|
                key_below(b, es) implies key_below(b, #[trigger] prefix_filter(es, p)) by {
                assert(key_below(b, es.drop_first()));
                assert(key_below(b, d));
                assert forall|i: int| 0 <= i < r.len() implies key_lt(b, #[trigger] r[i].0) by {
                    if i > 0 {
                        assert(r[i] == d[i - 1]);
                    } else {
                        assert(r[0] == es[0]);
                    }
                }
            }
        } else {
            assert forall|b: Seq<char>|
                key_below(b, es) implies key_below(b, #[trigger] prefix_filter(es, p)) by {
                assert(key_below(b, es.drop_first()));
                assert(key_below(b, d));
            }
        }
    }
}


/// What a prefix filter answers: the filtered run holds exactly the
/// prefixed keys' entries.
pub proof fn lemma_prefix_filter_lookup(es: Seq<EntryModel>, p: Seq<char>, k: Seq<char>)
    requires
        entries_sorted(es),
    ensures
        lookup(prefix_filter(es, p), k) == (if crate::order::lex_prefix(
            vstd::utf8::encode_utf8(p),
            vstd::utf8::encode_utf8(k),
        ) {
            lookup(es, k)
        } else {
            None
        }),
    decreases es.len(),
{
    if es.len() > 0 {
        assert(entries_sorted(es.drop_first()));
        lemma_prefix_filter_lookup(es.drop_first(), p, k);
        lemma_prefix_filter_sorted(es.drop_first(), p);
        assert(key_below(es[0].0, es.drop_first()));
        let d = prefix_filter(es.drop_first(), p);
        if crate::order::lex_prefix(vstd::utf8::encode_utf8(p), vstd::utf8::encode_utf8(es[0].0)) {
            let r = seq![es[0]] + d;
            assert(r[0] == es[0]);
            assert(r.drop_first() =~= d);
            if es[0].0 == k {
            } else {
                assert(lookup(r, k) == lookup(d, k));
            }
        } else {
            if es[0].0 == k {
                assert(key_below(k, es.drop_first()));
                assert(key_below(k, d)) by {
                    lemma_prefix_filter_sorted(es.drop_first(), p);
                }
                lemma_lookup_below(k, d);
            }
        }
    }
}

/// What a range filter answers: the live entries inside the range, and
/// nothing else.
pub proof fn lemma_range_live_lookup(es: Seq<EntryModel>, lo: Seq<char>, hi: Seq<char>, k: Seq<char>)
    requires
        entries_sorted(es),
    ensures
        lookup(range_live(es, lo, hi), k) == (if in_range(k, lo, hi) {
            live_only(lookup(es, k))
        } else {
            None
        }),
    decreases es.len(),
{
    if es.len() > 0 {
        assert(entries_sorted(es.drop_first()));
        lemma_range_live_lookup(es.drop_first(), lo, hi, k);
        lemma_range_live_sorted(es.drop_first(), lo, hi);
        assert(key_below(es[0].0, es.drop_first()));
        let d = range_live(es.drop_first(), lo, hi);
        if es[0].1 is Some && in_range(es[0].0, lo, hi) {
            let r = seq![es[0]] + d;
            assert(r[0] == es[0]);
            assert(r.drop_first() =~= d);
            if es[0].0 == k {
            } else {
                assert(lookup(r, k) == lookup(d, k));
            }
        } else {
            if es[0].0 == k {
                assert(key_below(k, es.drop_first()));
                assert(key_below(k, d)) by {
                    lemma_range_live_sorted(es.drop_first(), lo, hi);
                }
                lemma_lookup_below(k, d);
            }
        }
    }
}

/// Two sorted runs that answer every lookup alike are the same run.
pub proof fn lemma_sorted_lookup_ext(a: Seq<EntryModel>, b: Seq<EntryModel>)
    requires
        entries_sorted(a),
        entries_sorted(b),
        forall|k: Seq<char>| #[trigger] lookup(a, k) == lookup(b, k),
    ensures
        a == b,
    decreases a.len() + b.len(),
{
    if a.len() == 0 && b.len() == 0 {
        assert(a =~= b);
    } else if a.len() == 0 {
        assert(lookup(b, b[0].0) == Some(b[0].1));
        assert(lookup(a, b[0].0) is None);
    } else if b.len() == 0 {
        assert(lookup(a, a[0].0) == Some(a[0].1));
        assert(lookup(b, a[0].0) is None);
    } else {
        assert(a[0].0 == b[0].0) by {
            if a[0].0 != b[0].0 {
                if key_lt(a[0].0, b[0].0) {
                    assert(lookup(a, a[0].0) == Some(a[0].1));
                    assert(lookup(b, a[0].0) is None) by {
                        assert(key_below(a[0].0, b)) by {
                            assert forall|i: int| 0 <= i < b.len() implies key_lt(
                                a[0].0,
                                (#[trigger] b[i]).0,
                            ) by {
                                if i > 0 {
                                    lemma_key_lt_trans(a[0].0, b[0].0, b[i].0);
                                }
                            }
                        }
                        lemma_lookup_below(a[0].0, b);
                    }
                } else {
                    if !key_lt(b[0].0, a[0].0) {
                        lemma_key_lt_total(a[0].0, b[0].0);
                    }
                    assert(key_lt(b[0].0, a[0].0));
                    assert(lookup(b, b[0].0) == Some(b[0].1));
                    assert(lookup(a, b[0].0) is None) by {
                        assert(key_below(b[0].0, a)) by {
                            assert forall|i: int| 0 <= i < a.len() implies key_lt(
                                b[0].0,
                                (#[trigger] a[i]).0,
                            ) by {
                                if i > 0 {
                                    lemma_key_lt_trans(b[0].0, a[0].0, a[i].0);
                                }
                            }
                        }
                        lemma_lookup_below(b[0].0, a);
                    }
                }
            }
        }
        assert(a[0].1 == b[0].1) by {
            assert(lookup(a, a[0].0) == Some(a[0].1));
            assert(lookup(b, b[0].0) == Some(b[0].1));
        }
        let at = a.drop_first();
        let bt = b.drop_first();
        assert(entries_sorted(at));
        assert(entries_sorted(bt));
        assert forall|k: Seq<char>| #[trigger] lookup(at, k) == lookup(bt, k) by {
            if k == a[0].0 {
                assert(key_below(k, at));
                assert(key_below(k, bt));
                lemma_lookup_below(k, at);
                lemma_lookup_below(k, bt);
            } else {
                assert(lookup(a, k) == lookup(at, k));
                assert(lookup(b, k) == lookup(bt, k));
            }
        }
        lemma_sorted_lookup_ext(at, bt);
        assert(a =~= b) by {
            assert forall|i: int| 0 <= i < a.len() implies a[i] == b[i] by {
                if i > 0 {
                    assert(at[i - 1] == a[i]);
                    assert(bt[i - 1] == b[i]);
                }
            }
        }
    }
}


/// A present lookup answer names an entry of the run.
pub proof fn lemma_lookup_index(es: Seq<EntryModel>, k: Seq<char>)
    requires
        lookup(es, k) is Some,
    ensures
        exists|j: int| 0 <= j < es.len() && #[trigger] es[j] == (k, lookup(es, k)->0),
    decreases es.len(),
{
    if es.len() > 0 {
        if es[0].0 == k {
            assert(es[0] == (k, lookup(es, k)->0));
        } else {
            lemma_lookup_index(es.drop_first(), k);
            let j = choose|j: int|
                0 <= j < es.drop_first().len() && #[trigger] es.drop_first()[j] == (
                k,
                lookup(es.drop_first(), k)->0,
            );
            assert(es[j + 1] == (k, lookup(es, k)->0));
        }
    }
}

/// A present stack answer comes from one of its runs.
pub proof fn lemma_stack_lookup_some(ts: Seq<Seq<EntryModel>>, k: Seq<char>)
    requires
        stack_lookup(ts, k) is Some,
    ensures
        exists|i: int| 0 <= i < ts.len() && lookup(#[trigger] ts[i], k) is Some,
    decreases ts.len(),
{
    if ts.len() > 0 {
        if lookup(ts[0], k) is Some {
        } else {
            lemma_stack_lookup_some(ts.drop_first(), k);
            let i = choose|i: int|
                0 <= i < ts.drop_first().len() && lookup(#[trigger] ts.drop_first()[i], k) is Some;
            assert(lookup(ts[i + 1], k) is Some);
        }
    }
}

} // verus!












//! The in-memory ordered table of the most recent mutations.
//!
//! Entries are kept sorted by key; a tombstone is stored as `None` so that
//! a deletion can shadow older versions in sealed tables.  The running
//! `size_bytes` approximates the memory footprint: each key is counted
//! once when first inserted, and the current value length is counted per
//! live entry, with the accounting rules of `set` and `del` below.
use vstd::prelude::*;
use vstd::utf8::encode_utf8;

use crate::codec::entries_enc_ok;
use crate::codec::entries_view;
use crate::codec::entry_view;
use crate::model::entries_sorted;
use crate::model::lemma_absent_at;
use crate::model::lemma_lookup_at;
use crate::model::lemma_store_at;
use crate::model::lemma_store_sorted;
use crate::model::lookup;
use crate::model::store;
use crate::model::EntryModel;
use crate::order::cmp_bytes;
use crate::order::key_lt;
use crate::order::lemma_encode_utf8_injective;
use crate::order::lemma_key_lt_asymm;
use crate::order::lemma_key_lt_irrefl;
use crate::order::ByteOrd;

verus! {

/// Addition that stops at the largest representable size.
pub open spec fn sat_add(a: int, b: int) -> int {
    if a + b > usize::MAX as int {
        usize::MAX as int
    } else {
        a + b
    }
}

/// The advisory size after `set(k, v)`: the key length is added on first
/// insertion, a replaced live value's length is subtracted (only while
/// the counter stays non-negative), and the new value length is added.
pub open spec fn size_after_set(es: Seq<EntryModel>, sz: int, k: Seq<char>, v: Seq<char>) -> int {
    let base = match lookup(es, k) {
        None => sat_add(sz, encode_utf8(k).len() as int),
        Some(o) => match o {
            Some(ov) => if sz >= encode_utf8(ov).len() as int {
                sz - encode_utf8(ov).len() as int
            } else {
                sz
            },
            None => sz,
        },
    };
    sat_add(base, encode_utf8(v).len() as int)
}

/// The advisory size after `del(k)`: only a first insertion of the key
/// adds its length.
pub open spec fn size_after_del(es: Seq<EntryModel>, sz: int, k: Seq<char>) -> int {
    match lookup(es, k) {
        None => sat_add(sz, encode_utf8(k).len() as int),
        Some(o) => sz,
    }
}

/// The advisory size after applying a batch of insertions in order.
pub open spec fn size_after_batch(
    es: Seq<EntryModel>,
    sz: int,
    ops: Seq<(Seq<char>, Seq<char>)>,
) -> int
    decreases ops.len(),
{
    if ops.len() == 0 {
        sz
    } else {
        size_after_batch(
            store(es, ops[0].0, Some(ops[0].1)),
            size_after_set(es, sz, ops[0].0, ops[0].1),
            ops.drop_first(),
        )
    }
}

/// Saturating addition on sizes.
fn add_sat(a: usize, b: usize) -> (r: usize)
    ensures
        r as int == sat_add(a as int, b as int),
{
    if a <= usize::MAX - b {
        a + b
    } else {
        usize::MAX
    }
}

/// In-memory ordered map from keys to live values or tombstones.
pub struct MemTable {
    entries: Vec<(String, Option<String>)>,
    size_bytes: usize,
}

impl MemTable {
    /// The sorted run of entries this table holds.
    pub closed spec fn model(self) -> Seq<EntryModel> {
        entries_view(self.entries@)
    }

    /// The advisory size counter.
    pub closed spec fn spec_size(self) -> int {
        self.size_bytes as int
    }

    /// Entries are sorted and fit the wire format's length fields.
    pub open spec fn wf(self) -> bool {
        &&& entries_sorted(self.model())
        &&& entries_enc_ok(self.model())
    }

    pub fn new() -> (r: MemTable)
        ensures
            r.wf(),
            r.model() == Seq::<EntryModel>::empty(),
            r.spec_size() == 0,
    {
        let r = MemTable { entries: Vec::new(), size_bytes: 0 };
        proof {
            assert(r.model() =~= Seq::<EntryModel>::empty());
        }
        r
    }

    /// Position of `key`, or of the first larger key.
    fn locate(&self, key: &str) -> (r: (usize, bool))
        requires
            self.wf(),
        ensures
            r.0 <= self.model().len(),
            forall|j: int| 0 <= j < r.0 ==> key_lt((#[trigger] self.model()[j]).0, key@),
            r.1 ==> r.0 < self.model().len() && self.model()[r.0 as int].0 == key@,
            !r.1 && r.0 < self.model().len() ==> key_lt(key@, self.model()[r.0 as int].0),
    {
        let n = self.entries.len();
        let mut i: usize = 0;
        while i < n
            invariant
                self.wf(),
                n == self.model().len(),
                n == self.entries@.len(),
                0 <= i <= n,
                forall|j: int| 0 <= j < i ==> key_lt((#[trigger] self.model()[j]).0, key@),
            decreases n - i,
        {
            let e = &self.entries[i];
            proof {
                assert(self.model()[i as int] == entry_view(self.entries@[i as int]));
            }
            match cmp_bytes(e.0.as_str().as_bytes(), key.as_bytes()) {
                ByteOrd::Lt => {
                    i = i + 1;
                },
                ByteOrd::Eq => {
                    proof {
                        lemma_encode_utf8_injective(e.0@, key@);
                    }
                    return (i, true);
                },
                ByteOrd::Gt => {
                    return (i, false);
                },
            }
        }
        (i, false)
    }

    /// Insert or replace a live value for `key`.
    pub fn set(&mut self, key: String, value: String)
        requires
            old(self).wf(),
            encode_utf8(key@).len() <= 0xFFFF_FFFF,
            encode_utf8(value@).len() < 0xFFFF_FFFF,
        ensures
            final(self).wf(),
            final(self).model() == store(old(self).model(), key@, Some(value@)),
            final(self).spec_size() == size_after_set(
                old(self).model(),
                old(self).spec_size(),
                key@,
                value@,
            ),
    {
        let ghost es = self.model();
        let vl = value.as_str().len();
        let (i, found) = self.locate(key.as_str());
        proof {
            if i < self.entries.len() {
                if found {
                    lemma_key_lt_irrefl(key@);
                } else {
                    lemma_key_lt_asymm(key@, self.model()[i as int].0);
                }
            }
            lemma_store_at(es, key@, Some(value@), i as int);
            lemma_store_sorted(es, key@, Some(value@));
        }
        if found {
            proof {
                lemma_lookup_at(es, i as int);
            }
            let old_entry = self.entries.remove(i);
            match &old_entry.1 {
                Some(ov) => {
                    let ovl = ov.as_str().len();
                    if self.size_bytes >= ovl {
                        self.size_bytes = self.size_bytes - ovl;
                    }
                },
                None => {},
            }
            self.entries.insert(i, (key, Some(value)));
            proof {
                assert(self.model() =~= es.update(i as int, (key@, Some(value@))));
            }
        } else {
            proof {
                lemma_absent_at(es, key@, i as int);
            }
            self.size_bytes = add_sat(self.size_bytes, key.as_str().len());
            self.entries.insert(i, (key, Some(value)));
            proof {
                assert(self.model() =~= es.take(i as int) + seq![(key@, Some(value@))] + es.skip(
                    i as int,
                ));
            }
        }
        self.size_bytes = add_sat(self.size_bytes, vl);
    }

    /// Look `key` up: absent, a tombstone, or its live value.
    pub fn get(&self, key: &str) -> (r: Option<Option<String>>)
        requires
            self.wf(),
        ensures
            match r {
                None => lookup(self.model(), key@) is None,
                Some(o) => lookup(self.model(), key@) == Some(
                    match o {
                        Some(v) => Some(v@),
                        None => None::<Seq<char>>,
                    },
                ),
            },
    {
        let (i, found) = self.locate(key);
        if found {
            proof {
                lemma_lookup_at(self.model(), i as int);
            }
            let e = &self.entries[i];
            proof {
                assert(self.model()[i as int] == entry_view(self.entries@[i as int]));
            }
            match &e.1 {
                Some(v) => Some(Some(v.clone())),
                None => Some(None),
            }
        } else {
            proof {
                lemma_absent_at(self.model(), key@, i as int);
            }
            None
        }
    }

    /// Record a tombstone for `key`.
    pub fn del(&mut self, key: String)
        requires
            old(self).wf(),
            encode_utf8(key@).len() <= 0xFFFF_FFFF,
        ensures
            final(self).wf(),
            final(self).model() == store(old(self).model(), key@, None),
            final(self).spec_size() == size_after_del(
                old(self).model(),
                old(self).spec_size(),
                key@,
            ),
    {
        let ghost es = self.model();
        let (i, found) = self.locate(key.as_str());
        proof {
            if i < self.entries.len() {
                if found {
                    lemma_key_lt_irrefl(key@);
                } else {
                    lemma_key_lt_asymm(key@, self.model()[i as int].0);
                }
            }
            lemma_store_at(es, key@, None, i as int);
            lemma_store_sorted(es, key@, None);
        }
        if found {
            proof {
                lemma_lookup_at(es, i as int);
            }
            let _old_entry = self.entries.remove(i);
            self.entries.insert(i, (key, None));
            proof {
                assert(self.model() =~= es.update(i as int, (key@, None)));
            }
        } else {
            proof {
                lemma_absent_at(es, key@, i as int);
            }
            self.size_bytes = add_sat(self.size_bytes, key.as_str().len());
            self.entries.insert(i, (key, None));
            proof {
                assert(self.model() =~= es.take(i as int) + seq![(key@, None::<Seq<char>>)]
                    + es.skip(i as int));
            }
        }
    }

    /// Number of entries, tombstones included.
    pub fn len(&self) -> (r: usize)
        ensures
            r == self.model().len(),
    {
        self.entries.len()
    }

    /// The advisory size in bytes.
    pub fn size_bytes(&self) -> (r: usize)
        ensures
            r as int == self.spec_size(),
    {
        self.size_bytes
    }

    /// The entries in key order, tombstones included.
    pub fn iter(&self) -> (r: Vec<(String, Option<String>)>)
        ensures
            entries_view(r@) == self.model(),
    {
        let n = self.entries.len();
        let mut r: Vec<(String, Option<String>)> = Vec::new();
        let mut i: usize = 0;
        while i < n
            invariant
                n == self.entries@.len(),
                0 <= i <= n,
                entries_view(r@) =~= self.model().take(i as int),
            decreases n - i,
        {
            let e = &self.entries[i];
            let v2 = match &e.1 {
                Some(v) => Some(v.clone()),
                None => None,
            };
            let e2 = (e.0.clone(), v2);
            let ghost r0 = r@;
            proof {
                assert(entry_view(e2) == entry_view(self.entries@[i as int]));
                assert(entries_view(r0).len() == r0.len());
                assert(r0.len() == i as int);
            }
            r.push(e2);
            proof {
                assert(r@ == r0.push(e2));
                assert(entries_view(r@) =~= self.model().take((i + 1) as int)) by {
                    assert(self.model()[i as int] == entry_view(self.entries@[i as int]));
                    assert(r@[i as int] == e2);
                    assert forall|j: int| 0 <= j < r@.len() implies entries_view(r@)[j]
                        == self.model().take((i + 1) as int)[j] by {
                        assert(entries_view(r@)[j] == entry_view(r@[j]));
                        if j < i as int {
                            assert(r@[j] == r0[j]);
                            assert(entries_view(r0)[j] == entry_view(r0[j]));
                            assert(entries_view(r0)[j] == self.model().take(i as int)[j]);
                        }
                    }
                }
            }
            i = i + 1;
        }
        proof {
            assert(self.model().take(n as int) =~= self.model());
        }
        r
    }

    /// Remove every entry and reset the size counter.
    pub fn clear(&mut self)
        ensures
            final(self).wf(),
            final(self).model() == Seq::<EntryModel>::empty(),
            final(self).spec_size() == 0,
    {
        self.entries.clear();
        self.size_bytes = 0;
        proof {
            assert(self.model() =~= Seq::<EntryModel>::empty());
        }
    }
}

} // verus!

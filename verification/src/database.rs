//! The storage engine.
//!
//! The engine owns one memtable, one write-ahead log image, and the open
//! readers of the sealed tables, newest first.  A mutation is framed into
//! the log before the memtable changes; when the memtable's advisory size
//! crosses its threshold the engine seals it into a new sorted table and
//! truncates the log.  Reads consult the memtable first and then the
//! sealed tables from newest to oldest, stopping at the first hit — a
//! tombstone hit reads as absent.
//!
//! All file input and output stays outside the library: every mutation
//! returns the ordered list of file operations that make the new state
//! durable, and `load` rebuilds the engine from the bytes the shell read
//! back from the directory.
use vstd::prelude::*;
use vstd::string::StringExecFns;
use vstd::utf8::encode_utf8;

use crate::codec::entries_enc_ok;
use crate::codec::entries_view;
use crate::codec::entry_view;
use crate::codec::enc_wal;
use crate::codec::parse_wal;
use crate::memtable::MemTable;
use crate::model::entries_sorted;
use crate::model::first_hit;
use crate::model::lemma_lookup_store_other;
use crate::model::lemma_lookup_store_same;
use crate::model::lookup;
use crate::model::replay_onto;
use crate::model::stack_lookup;
use crate::model::store;
use crate::model::EntryModel;
use crate::names::sst_file_name;
use crate::names::sst_name_chars;
use crate::sstable::parse_table;
use crate::sstable::SSTableBuilder;
use crate::sstable::SSTableReader;
use crate::sstable::SearchResult;
use crate::wal::WAL;
use crate::DbError;

verus! {

/// The memtable is sealed into a table once its advisory size reaches
/// this many bytes.
pub const MEMTABLE_THRESHOLD: usize = 4 * 1024 * 1024;

/// When sealed tables are compacted: never, or once the configured
/// number of microseconds has passed since the last compaction.
#[derive(Clone, Copy, Debug, PartialEq, Eq, Structural)]
pub enum CompactionPolicy {
    Disabled,
    Periodic(u64),
}

/// One file operation the shell must apply to the directory, in order.
pub enum FileOp {
    /// Append these bytes to the log file and sync it.
    WalAppend(Vec<u8>),
    /// Truncate the log file to zero length.
    WalTruncate,
    /// Write a new table file with this name and content, then sync it.
    WriteSst(String, Vec<u8>),
    /// Delete the table file with this name.
    RemoveSst(String),
}

/// A file read back from the store's directory.
pub struct SstFile {
    pub name: String,
    pub bytes: Vec<u8>,
}

/// The persisted state: the log image and the table files by name.
pub ghost struct DiskState {
    pub wal: Seq<u8>,
    pub files: Seq<(Seq<char>, Seq<u8>)>,
}

/// What one sealed table contributes to the engine state.
pub ghost struct TableInfo {
    pub gen: u64,
    pub compacted: bool,
    pub name: Seq<char>,
    pub file: Seq<u8>,
    pub entries: Seq<EntryModel>,
}

/// Remove every file with the given name, keeping the rest in order.
pub open spec fn remove_file(files: Seq<(Seq<char>, Seq<u8>)>, n: Seq<char>) -> Seq<
    (Seq<char>, Seq<u8>),
>
    decreases files.len(),
{
    if files.len() == 0 {
        seq![]
    } else if files[0].0 == n {
        remove_file(files.drop_first(), n)
    } else {
        seq![files[0]] + remove_file(files.drop_first(), n)
    }
}

/// The effect of one file operation on the persisted state.  A new table
/// file stands at the front, mirroring that the newest table is
/// consulted first.
pub open spec fn apply_op(d: DiskState, op: FileOp) -> DiskState {
    match op {
        FileOp::WalAppend(b) => DiskState { wal: d.wal + b@, files: d.files },
        FileOp::WalTruncate => DiskState { wal: Seq::empty(), files: d.files },
        FileOp::WriteSst(n, b) => DiskState { wal: d.wal, files: seq![(n@, b@)] + d.files },
        FileOp::RemoveSst(n) => DiskState { wal: d.wal, files: remove_file(d.files, n@) },
    }
}

/// The effect of a list of file operations, applied in order.
pub open spec fn apply_ops(d: DiskState, ops: Seq<FileOp>) -> DiskState
    decreases ops.len(),
{
    if ops.len() == 0 {
        d
    } else {
        apply_ops(apply_op(d, ops[0]), ops.drop_first())
    }
}

struct TableEntry {
    name: String,
    gen: u64,
    compacted: bool,
    reader: SSTableReader,
}

/// The embedded key-value store.
pub struct Database {
    memtable: MemTable,
    wal: WAL,
    tables: Vec<TableEntry>,
    next_gen: u64,
    policy: CompactionPolicy,
    last_compaction_micros: u64,
}

impl Database {
    /// The memtable's run of entries.
    pub closed spec fn mt(self) -> Seq<EntryModel> {
        self.memtable.model()
    }

    /// The sealed tables' runs, newest first.
    pub closed spec fn tables_model(self) -> Seq<Seq<EntryModel>> {
        self.tables@.map_values(|t: TableEntry| t.reader.model())
    }

    /// The sealed tables with their generations, names and file images.
    pub closed spec fn table_infos(self) -> Seq<TableInfo> {
        self.tables@.map_values(
            |t: TableEntry| TableInfo {
                gen: t.gen,
                compacted: t.compacted,
                name: t.name@,
                file: t.reader.file(),
                entries: t.reader.model(),
            },
        )
    }

    /// The operations in the log since the last flush.
    pub closed spec fn wal_ops(self) -> Seq<EntryModel> {
        self.wal.ops()
    }

    /// The advisory size of the memtable.
    pub closed spec fn mt_size(self) -> int {
        self.memtable.spec_size()
    }

    /// The generation the next sealed table will carry.
    pub closed spec fn spec_next_gen(self) -> u64 {
        self.next_gen
    }

    /// The compaction policy.
    pub closed spec fn spec_policy(self) -> CompactionPolicy {
        self.policy
    }

    /// The persisted state this engine stands for.
    pub closed spec fn persisted(self) -> DiskState {
        DiskState {
            wal: self.wal.image(),
            files: self.tables@.map_values(|t: TableEntry| (t.name@, t.reader.file())),
        }
    }

    /// What a point read of `k` observes: the value of the most recent
    /// live version, or nothing.
    pub open spec fn spec_get(self, k: Seq<char>) -> Option<Seq<char>> {
        match first_hit(lookup(self.mt(), k), stack_lookup(self.tables_model(), k)) {
            Some(o) => o,
            None => None,
        }
    }

    /// The engine invariant: components well formed, the memtable the
    /// replay of the log, and tables named by strictly descending
    /// generations below the next one.
    pub closed spec fn wf(self) -> bool {
        &&& self.memtable.wf()
        &&& (self.memtable.model().len() == 0 ==> self.memtable.spec_size() == 0)
        &&& self.wal.wf()
        &&& self.memtable.model() == replay_onto(Seq::<EntryModel>::empty(), self.wal.ops())
        &&& forall|i: int| 0 <= i < self.tables@.len() ==> (#[trigger] self.tables@[i]).reader.wf()
        &&& forall|i: int|
            0 <= i < self.tables@.len() ==> (#[trigger] self.tables@[i]).name@ == sst_name_chars(
                self.tables@[i].gen as nat,
                self.tables@[i].compacted,
            )
        &&& forall|i: int, j: int|
            0 <= i < j < self.tables@.len() ==> (#[trigger] self.tables@[i]).gen > (
            #[trigger] self.tables@[j]).gen
        &&& forall|i: int|
            0 <= i < self.tables@.len() ==> (#[trigger] self.tables@[i]).gen < self.next_gen
    }

    /// Create a fresh, empty store.
    pub fn new() -> (r: Database)
        ensures
            r.wf(),
            r.mt() == Seq::<EntryModel>::empty(),
            r.tables_model() == Seq::<Seq<EntryModel>>::empty(),
            r.wal_ops() == Seq::<EntryModel>::empty(),
            r.persisted() == (DiskState {
                wal: Seq::<u8>::empty(),
                files: Seq::<(Seq<char>, Seq<u8>)>::empty(),
            }),
            r.spec_next_gen() == 1,
            r.spec_policy() == CompactionPolicy::Disabled,
    {
        let r = Database {
            memtable: MemTable::new(),
            wal: WAL::new(),
            tables: Vec::new(),
            next_gen: 1,
            policy: CompactionPolicy::Disabled,
            last_compaction_micros: 0,
        };
        proof {
            assert(r.tables_model() =~= Seq::<Seq<EntryModel>>::empty());
            assert(r.persisted().files =~= Seq::<(Seq<char>, Seq<u8>)>::empty());
            assert(replay_onto(Seq::<EntryModel>::empty(), Seq::<EntryModel>::empty())
                == Seq::<EntryModel>::empty());
        }
        r
    }

    /// Look a key up across the memtable and the sealed tables, newest
    /// first; a tombstone reads as absent.
    pub fn get(&self, key: &str) -> (r: Option<String>)
        requires
            self.wf(),
        ensures
            match r {
                Some(v) => self.spec_get(key@) == Some(v@),
                None => self.spec_get(key@) is None,
            },
    {
        let ghost tm = self.tables_model();
        match self.memtable.get(key) {
            Some(o) => {
                return o;
            },
            None => {},
        }
        let n = self.tables.len();
        let mut i: usize = 0;
        proof {
            assert(tm.skip(0) =~= tm);
        }
        while i < n
            invariant
                self.wf(),
                tm == self.tables_model(),
                n == self.tables@.len(),
                0 <= i <= n,
                lookup(self.mt(), key@) is None,
                stack_lookup(tm, key@) == stack_lookup(tm.skip(i as int), key@),
            decreases n - i,
        {
            let t = &self.tables[i];
            proof {
                assert(tm[i as int] == self.tables@[i as int].reader.model());
                assert(tm.skip(i as int)[0] == tm[i as int]);
                assert(tm.skip(i as int).drop_first() =~= tm.skip((i + 1) as int));
            }
            match t.reader.get(key) {
                SearchResult::Found(v) => {
                    return Some(v);
                },
                SearchResult::Deleted => {
                    return None;
                },
                SearchResult::NotFound => {
                    i = i + 1;
                },
            }
        }
        proof {
            assert(tm.skip(n as int) =~= Seq::<Seq<EntryModel>>::empty());
        }
        None
    }

    /// Seal the memtable into a new table file and truncate the log.
    /// Empty memtables are left alone, so a second flush in a row does
    /// nothing.
    fn flush_memtable(&mut self) -> (eff: Vec<FileOp>)
        requires
            old(self).wf(),
            old(self).spec_next_gen() < u64::MAX,
        ensures
            final(self).wf(),
            old(self).mt().len() == 0 ==> *final(self) == *old(self) && eff@.len() == 0,
            final(self).mt().len() == 0,
            final(self).wal_ops().len() == 0,
            final(self).tables_model() == (if old(self).mt().len() == 0 {
                old(self).tables_model()
            } else {
                seq![old(self).mt()] + old(self).tables_model()
            }),
            final(self).table_infos().len() == (if old(self).mt().len() == 0 {
                old(self).table_infos().len()
            } else {
                old(self).table_infos().len() + 1
            }),
            old(self).mt().len() > 0 ==> final(self).table_infos().drop_first() == old(
                self,
            ).table_infos(),
            forall|k: Seq<char>| #[trigger]
                final(self).spec_get(k) == old(self).spec_get(k),
            apply_ops(old(self).persisted(), eff@) == final(self).persisted(),
            final(self).spec_next_gen() <= old(self).spec_next_gen() + 1,
            old(self).spec_next_gen() <= final(self).spec_next_gen(),
            final(self).spec_policy() == old(self).spec_policy(),
            old(self).mt().len() > 0 ==> {
                &&& eff@.len() == 2
                &&& (eff@[0] matches FileOp::WriteSst(n, b) && ({
                    &&& n@ == sst_name_chars(old(self).spec_next_gen() as nat, false)
                    &&& (parse_table(b@) matches Some(t) && t.entries == old(self).mt())
                }))
                &&& (eff@[1] matches FileOp::WalTruncate)
                &&& final(self).spec_next_gen() == old(self).spec_next_gen() + 1
                &&& final(self).mt_size() == 0
            },
    {
        let ghost mt0 = self.mt();
        let ghost tm0 = self.tables_model();
        if self.memtable.len() == 0 {
            let eff: Vec<FileOp> = Vec::new();
            proof {
                assert(apply_ops(old(self).persisted(), eff@) == old(self).persisted());
                crate::model::lemma_replay_len(Seq::<EntryModel>::empty(), self.wal.ops());
                assert(self.wal.ops().len() == 0);
            }
            return eff;
        }
        let name = sst_file_name(self.next_gen, false);
        let entries = self.memtable.iter();
        let mut builder = SSTableBuilder::new();
        let en = entries.len();
        let mut i: usize = 0;
        proof {
            assert(entries_view(entries@) == mt0);
            assert(mt0.take(0) =~= Seq::<EntryModel>::empty());
        }
        while i < en
            invariant
                en == entries@.len(),
                entries_view(entries@) == mt0,
                entries_sorted(mt0),
                entries_enc_ok(mt0),
                0 <= i <= en,
                builder.wf(),
                builder.entries() == mt0.take(i as int),
            decreases en - i,
        {
            let e = &entries[i];
            proof {
                assert(mt0[i as int] == entry_view(entries@[i as int]));
                assert(crate::codec::entry_enc_ok(mt0[i as int]));
                if i > 0 {
                    assert(builder.entries().last() == mt0[i - 1]);
                    assert(crate::order::key_lt(mt0[i - 1].0, mt0[i as int].0));
                }
            }
            match &e.1 {
                Some(v) => {
                    builder.add(e.0.as_str(), v.as_str());
                },
                None => {
                    builder.delete(e.0.as_str());
                },
            }
            proof {
                assert(mt0.take((i + 1) as int) =~= mt0.take(i as int).push(mt0[i as int]));
            }
            i = i + 1;
        }
        proof {
            assert(mt0.take(en as int) =~= mt0);
        }
        let bytes = builder.finish();
        let bytes2 = vstd::slice::slice_to_vec(bytes.as_slice());
        let reader = match SSTableReader::new(bytes2) {
            Ok(t) => t,
            Err(_) => {
                proof {
                    assert(false);
                }
                return Vec::new();
            },
        };
        proof {
            reader.lemma_wf_parse();
            assert(reader.model() == mt0) by {
                assert(reader.file() == bytes@);
                assert(parse_table(bytes@)->0.entries == mt0);
            }
        }
        let gen = self.next_gen;
        let name2 = clone_string(&name);
        let t = TableEntry { name, gen, compacted: false, reader };
        self.tables.insert(0, t);
        self.next_gen = gen + 1;
        self.memtable.clear();
        self.wal.clear();
        let mut eff: Vec<FileOp> = Vec::new();
        eff.push(FileOp::WriteSst(name2, bytes));
        eff.push(FileOp::WalTruncate);
        proof {
            let dsk0 = old(self).persisted();
            let e0 = eff@[0];
            let e1 = eff@[1];
            let d1 = apply_op(dsk0, e0);
            let d2 = apply_op(d1, e1);
            assert(eff@.drop_first() =~= seq![e1]);
            assert(seq![e1].drop_first() =~= Seq::<FileOp>::empty());
            assert(apply_ops(dsk0, eff@) == apply_ops(d1, seq![e1]));
            assert(apply_ops(d1, seq![e1]) == apply_ops(d2, Seq::<FileOp>::empty()));
            assert(apply_ops(d2, Seq::<FileOp>::empty()) == d2);
            assert(apply_ops(dsk0, eff@) == d2);
            assert(d2.files =~= self.persisted().files) by {
                assert forall|j: int|
                    0 <= j < self.tables@.len() implies self.persisted().files[j] == (
                seq![(name2@, bytes@)] + dsk0.files)[j] by {
                    if j > 0 {
                        assert(self.tables@[j] == old(self).tables@[j - 1]);
                    }
                }
            }
            assert(d2 == self.persisted());
            // the run stack answers reads as before
            assert(self.tables_model() =~= seq![mt0] + tm0) by {
                assert forall|j: int|
                    0 <= j < self.tables@.len() implies self.tables_model()[j] == (seq![mt0]
                    + tm0)[j] by {
                    if j > 0 {
                        assert(self.tables@[j] == old(self).tables@[j - 1]);
                    }
                }
            }
            assert(self.table_infos().drop_first() =~= old(self).table_infos()) by {
                assert forall|j: int|
                    0 <= j < old(self).tables@.len() implies self.table_infos().drop_first()[j]
                    == old(self).table_infos()[j] by {
                    assert(self.tables@[j + 1] == old(self).tables@[j]);
                }
            }
            assert(replay_onto(Seq::<EntryModel>::empty(), Seq::<EntryModel>::empty())
                == Seq::<EntryModel>::empty());
            assert forall|k: Seq<char>| #[trigger]
                self.spec_get(k) == old(self).spec_get(k) by {
                let stk = self.tables_model();
                assert(stk[0] == mt0);
                assert(stk.drop_first() =~= tm0);
                assert(stack_lookup(stk, k) == first_hit(lookup(mt0, k), stack_lookup(tm0, k)));
                assert(lookup(self.mt(), k) is None);
            }
            assert forall|i2: int, j2: int|
                0 <= i2 < j2 < self.tables@.len() implies (#[trigger] self.tables@[i2]).gen > (
            #[trigger] self.tables@[j2]).gen by {
                if i2 > 0 {
                    assert(self.tables@[i2] == old(self).tables@[i2 - 1]);
                    assert(self.tables@[j2] == old(self).tables@[j2 - 1]);
                } else {
                    assert(self.tables@[j2] == old(self).tables@[j2 - 1]);
                }
            }
        }
        eff
    }

    /// Seal the memtable into a new table, if it holds anything.
    pub fn flush(&mut self) -> (eff: Vec<FileOp>)
        requires
            old(self).wf(),
            old(self).spec_next_gen() < u64::MAX,
        ensures
            final(self).wf(),
            old(self).mt().len() == 0 ==> *final(self) == *old(self) && eff@.len() == 0,
            final(self).mt().len() == 0,
            final(self).wal_ops().len() == 0,
            final(self).tables_model() == (if old(self).mt().len() == 0 {
                old(self).tables_model()
            } else {
                seq![old(self).mt()] + old(self).tables_model()
            }),
            forall|k: Seq<char>| #[trigger]
                final(self).spec_get(k) == old(self).spec_get(k),
            apply_ops(old(self).persisted(), eff@) == final(self).persisted(),
            final(self).spec_next_gen() <= old(self).spec_next_gen() + 1,
            final(self).spec_policy() == old(self).spec_policy(),
            Database::flush_transition(*old(self), *final(self)),
            old(self).mt().len() > 0 ==> {
                &&& eff@.len() == 2
                &&& (eff@[0] matches FileOp::WriteSst(n, b) && ({
                    &&& n@ == sst_name_chars(old(self).spec_next_gen() as nat, false)
                    &&& (parse_table(b@) matches Some(t) && t.entries == old(self).mt())
                }))
                &&& (eff@[1] matches FileOp::WalTruncate)
                &&& final(self).spec_next_gen() == old(self).spec_next_gen() + 1
            },
    {
        self.flush_memtable()
    }

    /// Insert or replace the value of a key.  The record is framed into
    /// the log before the memtable changes, and a full memtable is
    /// flushed afterwards.
    pub fn set(&mut self, key: String, value: String) -> (eff: Vec<FileOp>)
        requires
            old(self).wf(),
            old(self).spec_next_gen() < u64::MAX,
            encode_utf8(key@).len() <= 0xFFFF_FFFF,
            encode_utf8(value@).len() < 0xFFFF_FFFF,
        ensures
            final(self).wf(),
            forall|k: Seq<char>| #[trigger]
                final(self).spec_get(k) == (if k == key@ {
                    Some(value@)
                } else {
                    old(self).spec_get(k)
                }),
            apply_ops(old(self).persisted(), eff@) == final(self).persisted(),
            final(self).spec_next_gen() <= old(self).spec_next_gen() + 1,
            final(self).spec_policy() == old(self).spec_policy(),
            (eff@[0] matches FileOp::WalAppend(b) && b@ == crate::codec::enc_wal_op(
                (key@, Some(value@)),
            )),
            ({
                let mt1 = store(old(self).mt(), key@, Some(value@));
                let sz1 = crate::memtable::size_after_set(
                    old(self).mt(),
                    old(self).mt_size(),
                    key@,
                    value@,
                );
                if sz1 < MEMTABLE_THRESHOLD {
                    &&& final(self).mt() == mt1
                    &&& final(self).mt_size() == sz1
                    &&& final(self).tables_model() == old(self).tables_model()
                    &&& final(self).wal_ops() == old(self).wal_ops().push((key@, Some(value@)))
                    &&& final(self).spec_next_gen() == old(self).spec_next_gen()
                    &&& eff@.len() == 1
                } else {
                    &&& final(self).mt().len() == 0
                    &&& final(self).mt_size() == 0
                    &&& final(self).wal_ops().len() == 0
                    &&& final(self).tables_model() == seq![mt1] + old(self).tables_model()
                    &&& final(self).spec_next_gen() == old(self).spec_next_gen() + 1
                    &&& eff@.len() == 3
                    &&& (eff@[1] matches FileOp::WriteSst(n, b) && ({
                        &&& n@ == sst_name_chars(old(self).spec_next_gen() as nat, false)
                        &&& (parse_table(b@) matches Some(t) && t.entries == mt1)
                    }))
                    &&& (eff@[2] matches FileOp::WalTruncate)
                }
            }),
    {
        let ghost mt0 = self.mt();
        let ghost key_v = key@;
        let ghost val_v = value@;
        let rec = self.wal.set(key.as_str(), value.as_str());
        self.memtable.set(key, value);
        let mut eff: Vec<FileOp> = Vec::new();
        eff.push(FileOp::WalAppend(rec));
        let ghost mid = *self;
        let ghost eff0 = eff@;
        proof {
            crate::model::lemma_replay_snoc(
                Seq::<EntryModel>::empty(),
                old(self).wal.ops(),
                (key_v, Some(val_v)),
            );
            crate::model::lemma_store_len(mt0, key_v, Some(val_v));
            assert(mid.wf());
            assert(apply_ops(old(self).persisted(), eff0) == mid.persisted()) by {
                assert(eff0.drop_first() =~= Seq::<FileOp>::empty());
                assert(mid.persisted().files =~= old(self).persisted().files);
                assert(apply_op(old(self).persisted(), eff0[0]) == mid.persisted());
                assert(apply_ops(old(self).persisted(), eff0) == apply_ops(
                    apply_op(old(self).persisted(), eff0[0]),
                    eff0.drop_first(),
                ));
                assert(apply_ops(mid.persisted(), Seq::<FileOp>::empty()) == mid.persisted());
            }
            assert forall|k: Seq<char>| #[trigger]
                mid.spec_get(k) == (if k == key_v {
                    Some(val_v)
                } else {
                    old(self).spec_get(k)
                }) by {
                if k == key_v {
                    lemma_lookup_store_same(mt0, key_v, Some(val_v));
                } else {
                    lemma_lookup_store_other(mt0, key_v, Some(val_v), k);
                }
            }
        }
        if self.memtable.size_bytes() >= MEMTABLE_THRESHOLD {
            let more = self.flush_memtable();
            let ghost more0 = more@;
            let eff = concat_ops(eff, more);
            proof {
                lemma_apply_ops_concat(old(self).persisted(), eff0, more0);
                crate::model::lemma_store_len(mt0, key_v, Some(val_v));
                assert(eff@.len() == 3);
                assert(eff@[0] == eff0[0]);
                assert(eff@[1] == more0[0]);
                assert(eff@[2] == more0[1]);
            }
            return eff;
        }
        eff
    }

    /// Record a tombstone for a key, shadowing every older version.
    pub fn del(&mut self, key: &str) -> (eff: Vec<FileOp>)
        requires
            old(self).wf(),
            old(self).spec_next_gen() < u64::MAX,
            encode_utf8(key@).len() <= 0xFFFF_FFFF,
        ensures
            final(self).wf(),
            forall|k: Seq<char>| #[trigger]
                final(self).spec_get(k) == (if k == key@ {
                    None
                } else {
                    old(self).spec_get(k)
                }),
            apply_ops(old(self).persisted(), eff@) == final(self).persisted(),
            final(self).spec_next_gen() <= old(self).spec_next_gen() + 1,
            final(self).spec_policy() == old(self).spec_policy(),
            (eff@[0] matches FileOp::WalAppend(b) && b@ == crate::codec::enc_wal_op((key@, None))),
            ({
                let mt1 = store(old(self).mt(), key@, None);
                let sz1 = crate::memtable::size_after_del(
                    old(self).mt(),
                    old(self).mt_size(),
                    key@,
                );
                if sz1 < MEMTABLE_THRESHOLD {
                    &&& final(self).mt() == mt1
                    &&& final(self).mt_size() == sz1
                    &&& final(self).tables_model() == old(self).tables_model()
                    &&& final(self).wal_ops() == old(self).wal_ops().push((key@, None))
                    &&& final(self).spec_next_gen() == old(self).spec_next_gen()
                    &&& eff@.len() == 1
                } else {
                    &&& final(self).mt().len() == 0
                    &&& final(self).mt_size() == 0
                    &&& final(self).wal_ops().len() == 0
                    &&& final(self).tables_model() == seq![mt1] + old(self).tables_model()
                    &&& final(self).spec_next_gen() == old(self).spec_next_gen() + 1
                    &&& eff@.len() == 3
                    &&& (eff@[1] matches FileOp::WriteSst(n, b) && ({
                        &&& n@ == sst_name_chars(old(self).spec_next_gen() as nat, false)
                        &&& (parse_table(b@) matches Some(t) && t.entries == mt1)
                    }))
                    &&& (eff@[2] matches FileOp::WalTruncate)
                }
            }),
    {
        let ghost mt0 = self.mt();
        let ghost key_v = key@;
        let rec = self.wal.del(key);
        let key_owned = key.to_owned();
        self.memtable.del(key_owned);
        let mut eff: Vec<FileOp> = Vec::new();
        eff.push(FileOp::WalAppend(rec));
        let ghost mid = *self;
        let ghost eff0 = eff@;
        proof {
            crate::model::lemma_replay_snoc(
                Seq::<EntryModel>::empty(),
                old(self).wal.ops(),
                (key_v, None),
            );
            crate::model::lemma_store_len(mt0, key_v, None);
            assert(mid.wf());
            assert(apply_ops(old(self).persisted(), eff0) == mid.persisted()) by {
                assert(eff0.drop_first() =~= Seq::<FileOp>::empty());
                assert(mid.persisted().files =~= old(self).persisted().files);
                assert(apply_op(old(self).persisted(), eff0[0]) == mid.persisted());
                assert(apply_ops(old(self).persisted(), eff0) == apply_ops(
                    apply_op(old(self).persisted(), eff0[0]),
                    eff0.drop_first(),
                ));
                assert(apply_ops(mid.persisted(), Seq::<FileOp>::empty()) == mid.persisted());
            }
            assert forall|k: Seq<char>| #[trigger]
                mid.spec_get(k) == (if k == key_v {
                    None::<Seq<char>>
                } else {
                    old(self).spec_get(k)
                }) by {
                if k == key_v {
                    lemma_lookup_store_same(mt0, key_v, None);
                } else {
                    lemma_lookup_store_other(mt0, key_v, None, k);
                }
            }
        }
        if self.memtable.size_bytes() >= MEMTABLE_THRESHOLD {
            let more = self.flush_memtable();
            let ghost more0 = more@;
            let eff = concat_ops(eff, more);
            proof {
                lemma_apply_ops_concat(old(self).persisted(), eff0, more0);
                crate::model::lemma_store_len(mt0, key_v, None);
                assert(eff@.len() == 3);
                assert(eff@[0] == eff0[0]);
                assert(eff@[1] == more0[0]);
                assert(eff@[2] == more0[1]);
            }
            return eff;
        }
        eff
    }

    /// Apply a batch of insertions in order; the log receives one record
    /// per element under a single append, so the whole batch becomes
    /// durable together.
    pub fn batch_set(&mut self, entries: Vec<(String, String)>) -> (eff: Vec<FileOp>)
        requires
            old(self).wf(),
            old(self).spec_next_gen() < u64::MAX,
            forall|i: int|
                0 <= i < entries@.len() ==> encode_utf8(
                    (#[trigger] entries@[i]).0@,
                ).len() <= 0xFFFF_FFFF && encode_utf8(entries@[i].1@).len() < 0xFFFF_FFFF,
        ensures
            final(self).wf(),
            forall|k: Seq<char>| #[trigger]
                final(self).spec_get(k) == (match last_write(
                    crate::wal::batch_view(entries@),
                    k,
                ) {
                    Some(v) => Some(v),
                    None => old(self).spec_get(k),
                }),
            apply_ops(old(self).persisted(), eff@) == final(self).persisted(),
            final(self).spec_next_gen() <= old(self).spec_next_gen() + 1,
            final(self).spec_policy() == old(self).spec_policy(),
            (eff@[0] matches FileOp::WalAppend(b) && b@ == crate::codec::enc_wal(
                crate::wal::batch_view(entries@),
            )),
            ({
                let mt1 = replay_onto(old(self).mt(), crate::wal::batch_view(entries@));
                let sz1 = crate::memtable::size_after_batch(
                    old(self).mt(),
                    old(self).mt_size(),
                    crate::wal::batch_pairs(entries@),
                );
                if sz1 < MEMTABLE_THRESHOLD {
                    &&& final(self).mt() == mt1
                    &&& final(self).mt_size() == sz1
                    &&& final(self).tables_model() == old(self).tables_model()
                    &&& final(self).wal_ops() == old(self).wal_ops() + crate::wal::batch_view(
                        entries@,
                    )
                    &&& final(self).spec_next_gen() == old(self).spec_next_gen()
                    &&& eff@.len() == 1
                } else {
                    &&& final(self).mt().len() == 0
                    &&& final(self).mt_size() == 0
                    &&& final(self).wal_ops().len() == 0
                    &&& final(self).tables_model() == seq![mt1] + old(self).tables_model()
                    &&& final(self).spec_next_gen() == old(self).spec_next_gen() + 1
                    &&& eff@.len() == 3
                    &&& (eff@[1] matches FileOp::WriteSst(n2, b) && ({
                        &&& n2@ == sst_name_chars(old(self).spec_next_gen() as nat, false)
                        &&& (parse_table(b@) matches Some(t) && t.entries == mt1)
                    }))
                    &&& (eff@[2] matches FileOp::WalTruncate)
                }
            }),
    {
        let ghost bv = crate::wal::batch_view(entries@);
        let ghost pv = crate::wal::batch_pairs(entries@);
        let ghost sz0 = self.mt_size();
        let rec = self.wal.batch_set(&entries);
        let ghost mt0 = self.mt();
        let ghost ops0 = old(self).wal.ops();
        let ghost wal1 = self.wal;
        let n = entries.len();
        let mut i: usize = 0;
        proof {
            assert(bv.take(0) =~= Seq::<EntryModel>::empty());
            assert(ops0 + bv.take(0) =~= ops0);
            assert(pv.skip(0) =~= pv);
        }
        while i < n
            invariant
                n == entries@.len(),
                bv == crate::wal::batch_view(entries@),
                forall|j: int|
                    0 <= j < entries@.len() ==> encode_utf8(
                        (#[trigger] entries@[j]).0@,
                    ).len() <= 0xFFFF_FFFF && encode_utf8(entries@[j].1@).len() < 0xFFFF_FFFF,
                0 <= i <= n,
                self.memtable.wf(),
                self.memtable.model() == replay_onto(mt0, bv.take(i as int)),
                self.memtable.model().len() == 0 ==> self.memtable.spec_size() == 0,
                pv == crate::wal::batch_pairs(entries@),
                crate::memtable::size_after_batch(
                    self.memtable.model(),
                    self.memtable.spec_size(),
                    pv.skip(i as int),
                ) == crate::memtable::size_after_batch(mt0, sz0, pv),
                self.wal == wal1,
                self.tables == old(self).tables,
                self.next_gen == old(self).next_gen,
                self.policy == old(self).policy,
                self.last_compaction_micros == old(self).last_compaction_micros,
            decreases n - i,
        {
            let e = &entries[i];
            let k2 = clone_string(&e.0);
            let v2 = clone_string(&e.1);
            self.memtable.set(k2, v2);
            proof {
                assert(bv[i as int] == (entries@[i as int].0@, Some(entries@[i as int].1@)));
                assert(pv[i as int] == (entries@[i as int].0@, entries@[i as int].1@));
                assert(bv.take((i + 1) as int) =~= bv.take(i as int).push(bv[i as int]));
                crate::model::lemma_replay_snoc(mt0, bv.take(i as int), bv[i as int]);
                crate::model::lemma_store_len(
                    replay_onto(mt0, bv.take(i as int)),
                    bv[i as int].0,
                    bv[i as int].1,
                );
                assert(pv.skip(i as int)[0] == pv[i as int]);
                assert(pv.skip(i as int).drop_first() =~= pv.skip((i + 1) as int));
            }
            i = i + 1;
        }
        proof {
            assert(bv.take(n as int) =~= bv);
            assert(pv.skip(n as int) =~= Seq::<(Seq<char>, Seq<char>)>::empty());
            crate::model::lemma_replay_concat(Seq::<EntryModel>::empty(), ops0, bv);
            assert(self.memtable.model() == replay_onto(
                Seq::<EntryModel>::empty(),
                self.wal.ops(),
            ));
            assert(self.memtable.spec_size() == crate::memtable::size_after_batch(mt0, sz0, pv));
        }
        let mut eff: Vec<FileOp> = Vec::new();
        eff.push(FileOp::WalAppend(rec));
        let ghost mid = *self;
        let ghost eff0 = eff@;
        proof {
            assert(mid.wf());
            assert(apply_ops(old(self).persisted(), eff0) == mid.persisted()) by {
                assert(eff0.drop_first() =~= Seq::<FileOp>::empty());
                assert(mid.persisted().files =~= old(self).persisted().files);
                assert(apply_op(old(self).persisted(), eff0[0]) == mid.persisted());
                assert(apply_ops(old(self).persisted(), eff0) == apply_ops(
                    apply_op(old(self).persisted(), eff0[0]),
                    eff0.drop_first(),
                ));
                assert(apply_ops(mid.persisted(), Seq::<FileOp>::empty()) == mid.persisted());
            }
            assert forall|k: Seq<char>| #[trigger]
                mid.spec_get(k) == (match last_write(bv, k) {
                    Some(v) => Some(v),
                    None => old(self).spec_get(k),
                }) by {
                lemma_replay_last_write(mt0, bv, k);
            }
        }
        if self.memtable.size_bytes() >= MEMTABLE_THRESHOLD {
            proof {
                assert(mid.mt().len() > 0) by {
                    if mid.mt().len() == 0 {
                        assert(mid.mt_size() == 0);
                    }
                }
            }
            let more = self.flush_memtable();
            let ghost more0 = more@;
            let eff = concat_ops(eff, more);
            proof {
                lemma_apply_ops_concat(old(self).persisted(), eff0, more0);
                assert(eff@.len() == 3);
                assert(eff@[0] == eff0[0]);
                assert(eff@[1] == more0[0]);
                assert(eff@[2] == more0[1]);
            }
            return eff;
        }
        eff
    }

    /// Merge every sealed table into one new table, dropping shadowed
    /// versions and tombstones, then delete the inputs.  The memtable is
    /// flushed first, so afterwards at most one table file remains
    /// beside the log.
    #[verifier::rlimit(100)]
    pub fn compact(&mut self) -> (r: Result<Vec<FileOp>, DbError>)
        requires
            old(self).wf(),
            old(self).spec_next_gen() < u64::MAX - 1,
        ensures
            r is Ok,
            final(self).wf(),
            forall|k: Seq<char>| #[trigger]
                final(self).spec_get(k) == old(self).spec_get(k),
            final(self).mt().len() == 0,
            final(self).wal_ops().len() == 0,
            final(self).tables_model().len() <= 1,
            (old(self).mt().len() > 0 || old(self).tables_model().len() > 0)
                ==> final(self).tables_model().len() == 1,
            final(self).persisted().files.len() == final(self).tables_model().len(),
            match r {
                Ok(eff) => apply_ops(old(self).persisted(), eff@) == final(self).persisted(),
                Err(e) => false,
            },
            match r {
                Ok(eff) => forall|i: int, j: int|
                    0 <= i < j < eff@.len() && (#[trigger] eff@[i]) is RemoveSst ==> !((
                    #[trigger] eff@[j]) is WriteSst),
                Err(e) => false,
            },
            final(self).spec_policy() == old(self).spec_policy(),
            final(self).spec_next_gen() <= old(self).spec_next_gen() + 2,
    {
        let eff1v = self.flush_memtable();
        let ghost eff1 = eff1v@;
        let ghost mid1 = *self;
        if self.tables.len() == 0 {
            proof {
                assert(self.tables_model().len() == 0);
                assert(self.persisted().files.len() == 0);
                assert(forall|i: int|
                    0 <= i < eff1.len() ==> !((#[trigger] eff1[i]) is RemoveSst));
            }
            return Ok(eff1v);
        }
        let ghost tm1 = self.tables_model();
        let n = self.tables.len();
        let mut acc: Vec<(String, Option<String>)> = Vec::new();
        let mut i: usize = n;
        proof {
            assert(tm1.skip(n as int) =~= Seq::<Seq<EntryModel>>::empty());
            assert(crate::model::merge_stack(Seq::<Seq<EntryModel>>::empty())
                == Seq::<EntryModel>::empty());
            assert(entries_view(acc@) =~= Seq::<EntryModel>::empty());
        }
        while i > 0
            invariant
                self.wf(),
                *self == mid1,
                tm1 == self.tables_model(),
                n == self.tables@.len(),
                0 <= i <= n,
                entries_view(acc@) == crate::model::merge_stack(tm1.skip(i as int)),
                entries_sorted(entries_view(acc@)),
                entries_enc_ok(entries_view(acc@)),
            decreases i,
        {
            i = i - 1;
            let ghost acc0 = entries_view(acc@);
            let te = self.tables[i].reader.clone_entries();
            proof {
                assert(tm1[i as int] == self.tables@[i as int].reader.model());
                self.tables@[i as int].reader.lemma_wf_model();
                assert(entries_sorted(tm1[i as int]));
                assert(entries_enc_ok(tm1[i as int]));
                crate::model::lemma_merge2(tm1[i as int], acc0);
            }
            let acc2 = merge_runs(&te, &acc);
            acc = acc2;
            proof {
                assert(tm1.skip(i as int)[0] == tm1[i as int]);
                assert(tm1.skip(i as int).drop_first() =~= tm1.skip((i + 1) as int));
                assert(entries_view(acc@) == crate::model::merge_stack(tm1.skip(i as int)));
                crate::model::lemma_merge2_members(tm1[i as int], acc0);
                assert forall|w: int|
                    0 <= w < entries_view(acc@).len() implies crate::codec::entry_enc_ok(
                    #[trigger] entries_view(acc@)[w],
                ) by {
                    let e = entries_view(acc@)[w];
                    if tm1[i as int].contains(e) {
                        let w2 = choose|w2: int|
                            0 <= w2 < tm1[i as int].len() && tm1[i as int][w2] == e;
                        assert(crate::codec::entry_enc_ok(tm1[i as int][w2]));
                    } else {
                        let w2 = choose|w2: int| 0 <= w2 < acc0.len() && acc0[w2] == e;
                        assert(crate::codec::entry_enc_ok(acc0[w2]));
                    }
                }
            }
        }
        proof {
            assert(tm1.skip(0) =~= tm1);
        }
        let ghost merged = entries_view(acc@);
        let live = drop_tombs_exec(&acc);
        let ghost lv = entries_view(live@);
        proof {
            assert forall|w: int| 0 <= w < tm1.len() implies entries_sorted(#[trigger] tm1[w]) by {
                assert(tm1[w] == mid1.tables@[w].reader.model());
                mid1.tables@[w].reader.lemma_wf_model();
            }
            crate::model::lemma_merge_stack(tm1);
            crate::model::lemma_drop_tombstones(merged);
            crate::model::lemma_drop_tombstones_members(merged);
            assert forall|w: int| 0 <= w < lv.len() implies crate::codec::entry_enc_ok(
                #[trigger] lv[w],
            ) by {
                let w2 = choose|w2: int| 0 <= w2 < merged.len() && merged[w2] == lv[w];
                assert(crate::codec::entry_enc_ok(merged[w2]));
            }
        }
        let name = sst_file_name(self.next_gen, true);
        let mut builder = SSTableBuilder::new();
        let ln = live.len();
        let mut q: usize = 0;
        proof {
            assert(lv.take(0) =~= Seq::<EntryModel>::empty());
        }
        while q < ln
            invariant
                ln == live@.len(),
                lv == entries_view(live@),
                entries_sorted(lv),
                entries_enc_ok(lv),
                forall|w: int| 0 <= w < lv.len() ==> (#[trigger] lv[w]).1 is Some,
                0 <= q <= ln,
                builder.wf(),
                builder.entries() == lv.take(q as int),
            decreases ln - q,
        {
            let e = &live[q];
            proof {
                assert(lv[q as int] == entry_view(live@[q as int]));
                assert(crate::codec::entry_enc_ok(lv[q as int]));
                if q > 0 {
                    assert(builder.entries().last() == lv[q - 1]);
                    assert(crate::order::key_lt(lv[q - 1].0, lv[q as int].0));
                }
            }
            match &e.1 {
                Some(v) => {
                    builder.add(e.0.as_str(), v.as_str());
                },
                None => {
                    proof {
                        assert(false);
                    }
                },
            }
            proof {
                assert(lv.take((q + 1) as int) =~= lv.take(q as int).push(lv[q as int]));
            }
            q = q + 1;
        }
        proof {
            assert(lv.take(ln as int) =~= lv);
        }
        let bytes = builder.finish();
        let bytes2 = vstd::slice::slice_to_vec(bytes.as_slice());
        let reader = match SSTableReader::new(bytes2) {
            Ok(t) => t,
            Err(_) => {
                proof {
                    assert(false);
                }
                return Err(DbError::Corruption);
            },
        };
        proof {
            reader.lemma_wf_parse();
            assert(reader.model() == lv);
        }
        let gen = self.next_gen;
        let name2 = clone_string(&name);
        let ghost gb = bytes@;
        let ghost gn = name2@;
        let newt = TableEntry { name, gen, compacted: true, reader };
        let mut old_tables: Vec<TableEntry> = Vec::new();
        core::mem::swap(&mut old_tables, &mut self.tables);
        self.tables.push(newt);
        self.next_gen = gen + 1;
        let mut eff2: Vec<FileOp> = Vec::new();
        eff2.push(FileOp::WriteSst(name2, bytes));
        let ghost d0 = mid1.persisted();
        let ghost files1 = d0.files;
        proof {
            assert(eff2@.drop_first() =~= Seq::<FileOp>::empty());
            assert(apply_ops(apply_op(d0, eff2@[0]), Seq::<FileOp>::empty()) == apply_op(
                d0,
                eff2@[0],
            ));
            assert(files1.skip(0) =~= files1);
            assert(apply_ops(d0, eff2@) == (DiskState {
                wal: d0.wal,
                files: seq![(gn, gb)] + files1.skip(0),
            }));
        }
        let on = old_tables.len();
        let mut j: usize = 0;
        while j < on
            invariant
                on == old_tables@.len(),
                0 <= j <= on,
                mid1.wf(),
                old_tables@ == mid1.tables@,
                d0 == mid1.persisted(),
                files1 == d0.files,
                gn == sst_name_chars(gen as nat, true),
                forall|w: int| 0 <= w < on ==> (#[trigger] old_tables@[w]).gen < gen,
                eff2@.len() >= 1,
                eff2@[0] is WriteSst,
                forall|w: int| 1 <= w < eff2@.len() ==> (#[trigger] eff2@[w]) is RemoveSst,
                apply_ops(d0, eff2@) == (DiskState {
                    wal: d0.wal,
                    files: seq![(gn, gb)] + files1.skip(j as int),
                }),
            decreases on - j,
        {
            let nm = clone_string(&old_tables[j].name);
            let ghost prev_eff = eff2@;
            let ghost dprev = apply_ops(d0, prev_eff);
            let ghost gen_j = old_tables@[j as int].gen;
            let ghost comp_j = old_tables@[j as int].compacted;
            proof {
                assert(nm@ == sst_name_chars(gen_j as nat, comp_j));
            }
            eff2.push(FileOp::RemoveSst(nm));
            proof {
                let op = eff2@.last();
                assert(eff2@ =~= prev_eff + seq![op]);
                lemma_apply_ops_concat(d0, prev_eff, seq![op]);
                assert(seq![op].drop_first() =~= Seq::<FileOp>::empty());
                assert(apply_ops(dprev, seq![op]) == apply_ops(
                    apply_op(dprev, op),
                    Seq::<FileOp>::empty(),
                ));
                assert(apply_ops(apply_op(dprev, op), Seq::<FileOp>::empty()) == apply_op(
                    dprev,
                    op,
                ));
                let fs = dprev.files;
                assert(fs =~= seq![(gn, gb)] + files1.skip(j as int));
                assert(fs[0].0 == gn);
                assert(gn != nm@) by {
                    if gn == nm@ {
                        crate::names::lemma_name_injective(gen as nat, true, gen_j as nat, comp_j);
                    }
                }
                assert(remove_file(fs, nm@) == seq![fs[0]] + remove_file(fs.drop_first(), nm@));
                assert(fs.drop_first() =~= files1.skip(j as int));
                assert(files1.skip(j as int)[0] == files1[j as int]);
                assert(files1[j as int] == (old_tables@[j as int].name@,
                    old_tables@[j as int].reader.file()));
                assert(files1.skip(j as int)[0].0 == nm@);
                assert forall|w: int|
                    1 <= w < files1.skip(j as int).len() implies (#[trigger] files1.skip(
                    j as int,
                )[w]).0 != nm@ by {
                    assert(files1.skip(j as int)[w] == files1[j + w]);
                    assert(files1[j + w] == (old_tables@[j + w].name@,
                        old_tables@[j + w].reader.file()));
                    let gen_w = old_tables@[j + w].gen;
                    let comp_w = old_tables@[j + w].compacted;
                    assert(old_tables@[j + w].name@ == sst_name_chars(gen_w as nat, comp_w));
                    assert(gen_j > gen_w);
                    if old_tables@[j + w].name@ == nm@ {
                        crate::names::lemma_name_injective(
                            gen_w as nat,
                            comp_w,
                            gen_j as nat,
                            comp_j,
                        );
                    }
                }
                crate::database::lemma_remove_head(files1.skip(j as int), nm@);
                assert(files1.skip(j as int).drop_first() =~= files1.skip((j + 1) as int));
                assert(apply_ops(d0, eff2@) == (DiskState {
                    wal: d0.wal,
                    files: seq![(gn, gb)] + files1.skip((j + 1) as int),
                }));
            }
            j = j + 1;
        }
        let eff = concat_ops(eff1v, eff2);
        proof {
            assert(files1.skip(on as int) =~= Seq::<(Seq<char>, Seq<u8>)>::empty());
            assert(seq![(gn, gb)] + files1.skip(on as int) =~= seq![(gn, gb)]);
            // the new engine state holds the one compacted table
            assert(self.tables@.len() == 1);
            assert(self.tables_model() =~= seq![lv]) by {
                assert(self.tables_model()[0] == self.tables@[0].reader.model());
            }
            assert(self.persisted().files =~= seq![(gn, gb)]) by {
                assert(self.persisted().files[0] == (self.tables@[0].name@,
                    self.tables@[0].reader.file()));
            }
            assert(self.persisted().wal == d0.wal);
            assert(apply_ops(d0, eff2@) == self.persisted());
            lemma_apply_ops_concat(old(self).persisted(), eff1, eff2@);
            assert(eff@ =~= eff1 + eff2@);
            assert(apply_ops(old(self).persisted(), eff@) == self.persisted());
            assert(forall|i: int| 0 <= i < eff1.len() ==> !((#[trigger] eff1[i]) is RemoveSst));
            assert forall|i: int, j: int|
                0 <= i < j < eff@.len() && (#[trigger] eff@[i]) is RemoveSst implies !((
            #[trigger] eff@[j]) is WriteSst) by {
                assert(i >= eff1.len()) by {
                    if i < eff1.len() {
                        assert(eff@[i] == eff1[i]);
                    }
                }
                assert(eff@[i] == eff2@[i - eff1.len()]);
                assert(eff@[j] == eff2@[j - eff1.len()]);
                assert(i - eff1.len() >= 1);
                assert(eff2@[j - eff1.len()] is RemoveSst);
            }
            // reads are unchanged
            assert(mid1.mt().len() == 0);
            assert(mid1.mt() =~= Seq::<EntryModel>::empty());
            assert(self.mt() == mid1.mt());
            assert forall|k: Seq<char>| #[trigger]
                self.spec_get(k) == mid1.spec_get(k) by {
                let stk = self.tables_model();
                assert(stk[0] == lv);
                assert(stk.drop_first() =~= Seq::<Seq<EntryModel>>::empty());
                assert(stack_lookup(stk, k) == first_hit(
                    lookup(lv, k),
                    stack_lookup(Seq::<Seq<EntryModel>>::empty(), k),
                ));
                assert(lookup(lv, k) == crate::model::live_only(lookup(merged, k)));
                assert(lookup(merged, k) == stack_lookup(tm1, k));
                assert(lookup(mid1.mt(), k) is None);
                assert(lookup(self.mt(), k) is None);
            }
        }
        Ok(eff)
    }
}

/// The value of the last insertion of `k` in a batch, if any.
pub open spec fn last_write(ops: Seq<EntryModel>, k: Seq<char>) -> Option<Seq<char>>
    decreases ops.len(),
{
    if ops.len() == 0 {
        None
    } else if ops.last().0 == k {
        match ops.last().1 {
            Some(v) => Some(v),
            None => None,
        }
    } else {
        last_write(ops.drop_last(), k)
    }
}

/// After replaying a batch of insertions, a key reads as its last
/// written value, or as before.
proof fn lemma_replay_last_write(acc: Seq<EntryModel>, ops: Seq<EntryModel>, k: Seq<char>)
    requires
        forall|i: int| 0 <= i < ops.len() ==> (#[trigger] ops[i]).1 is Some,
    ensures
        lookup(replay_onto(acc, ops), k) == (match last_write(ops, k) {
            Some(v) => Some(Some(v)),
            None => lookup(acc, k),
        }),
    decreases ops.len(),
{
    if ops.len() > 0 {
        let o = ops.last();
        crate::model::lemma_replay_snoc(acc, ops.drop_last(), o);
        assert(ops.drop_last().push(o) =~= ops);
        lemma_replay_last_write(acc, ops.drop_last(), k);
        if o.0 == k {
            lemma_lookup_store_same(replay_onto(acc, ops.drop_last()), o.0, o.1);
        } else {
            lemma_lookup_store_other(replay_onto(acc, ops.drop_last()), o.0, o.1, k);
        }
    }
}


/// Clone a string.
fn clone_string(s: &String) -> (r: String)
    ensures
        r@ == s@,
{
    s.clone()
}

/// Concatenate two effect lists.
fn concat_ops(a: Vec<FileOp>, b: Vec<FileOp>) -> (r: Vec<FileOp>)
    ensures
        r@ == a@ + b@,
{
    let mut r = a;
    let mut b2 = b;
    let ghost a0 = r@;
    let ghost b0 = b2@;
    r.append(&mut b2);
    proof {
        assert(r@ =~= a0 + b0);
    }
    r
}

/// Applying concatenated effect lists is applying them in turn.
proof fn lemma_apply_ops_concat(d: DiskState, a: Seq<FileOp>, b: Seq<FileOp>)
    ensures
        apply_ops(d, a + b) == apply_ops(apply_ops(d, a), b),
    decreases a.len(),
{
    if a.len() == 0 {
        assert(a + b =~= b);
    } else {
        assert((a + b)[0] == a[0]);
        assert((a + b).drop_first() =~= a.drop_first() + b);
        lemma_apply_ops_concat(apply_op(d, a[0]), a.drop_first(), b);
    }
}


/// Clone one entry.
fn clone_entry(e: &(String, Option<String>)) -> (r: (String, Option<String>))
    ensures
        entry_view(r) == entry_view(*e),
{
    let v2 = match &e.1 {
        Some(v) => Some(clone_string(v)),
        None => None,
    };
    (clone_string(&e.0), v2)
}

/// Merge two sorted runs of owned entries; on equal keys the first run
/// (the newer one) wins.
#[verifier::rlimit(100)]
fn merge_runs(a: &Vec<(String, Option<String>)>, b: &Vec<(String, Option<String>)>) -> (r: Vec<
    (String, Option<String>),
>)
    requires
        entries_sorted(entries_view(a@)),
        entries_sorted(entries_view(b@)),
    ensures
        entries_view(r@) == crate::model::merge2(entries_view(a@), entries_view(b@)),
{
    let ghost va = entries_view(a@);
    let ghost vb = entries_view(b@);
    let na = a.len();
    let nb = b.len();
    let mut out: Vec<(String, Option<String>)> = Vec::new();
    let mut i: usize = 0;
    let mut j: usize = 0;
    proof {
        assert(va.skip(0) =~= va);
        assert(vb.skip(0) =~= vb);
        assert(entries_view(out@) =~= Seq::<EntryModel>::empty());
        assert(Seq::<EntryModel>::empty() + crate::model::merge2(va, vb) =~= crate::model::merge2(
            va,
            vb,
        ));
    }
    while i < na || j < nb
        invariant
            na == a@.len(),
            nb == b@.len(),
            va == entries_view(a@),
            vb == entries_view(b@),
            0 <= i <= na,
            0 <= j <= nb,
            crate::model::merge2(va, vb) == entries_view(out@) + crate::model::merge2(
                va.skip(i as int),
                vb.skip(j as int),
            ),
        decreases na - i + nb - j,
    {
        let ghost out0 = entries_view(out@);
        let ghost ra = va.skip(i as int);
        let ghost rb = vb.skip(j as int);
        let take_a: bool;
        let advance_b: bool;
        if i < na && j < nb {
            proof {
                assert(va[i as int] == entry_view(a@[i as int]));
                assert(vb[j as int] == entry_view(b@[j as int]));
            }
            match crate::order::cmp_bytes(
                a[i].0.as_str().as_bytes(),
                b[j].0.as_str().as_bytes(),
            ) {
                crate::order::ByteOrd::Lt => {
                    take_a = true;
                    advance_b = false;
                },
                crate::order::ByteOrd::Eq => {
                    proof {
                        crate::order::lemma_encode_utf8_injective(a@[i as int].0@, b@[j as int].0@);
                        crate::order::lemma_key_lt_irrefl(va[i as int].0);
                    }
                    take_a = true;
                    advance_b = true;
                },
                crate::order::ByteOrd::Gt => {
                    take_a = false;
                    advance_b = true;
                },
            }
        } else if i < na {
            take_a = true;
            advance_b = false;
        } else {
            take_a = false;
            advance_b = true;
        }
        proof {
            assert(ra.len() == na - i);
            assert(rb.len() == nb - j);
            if i < na {
                assert(ra[0] == va[i as int]);
                assert(ra.drop_first() =~= va.skip((i + 1) as int));
            }
            if j < nb {
                assert(rb[0] == vb[j as int]);
                assert(rb.drop_first() =~= vb.skip((j + 1) as int));
            }
        }
        if take_a {
            let e = clone_entry(&a[i]);
            proof {
                assert(entry_view(e) == va[i as int]);
            }
            out.push(e);
            proof {
                assert(entries_view(out@) =~= out0.push(va[i as int])) by {
                    assert forall|q: int| 0 <= q < out@.len() implies entries_view(out@)[q]
                        == out0.push(va[i as int])[q] by {
                        assert(entries_view(out@)[q] == entry_view(out@[q]));
                    }
                }
            }
            if advance_b {
                proof {
                    assert(crate::model::merge2(ra, rb) == seq![ra[0]] + crate::model::merge2(
                        ra.drop_first(),
                        rb.drop_first(),
                    ));
                    assert(entries_view(out@) + crate::model::merge2(
                        va.skip((i + 1) as int),
                        vb.skip((j + 1) as int),
                    ) =~= out0 + crate::model::merge2(ra, rb));
                }
                i = i + 1;
                j = j + 1;
            } else {
                proof {
                    if j < nb {
                        assert(crate::model::merge2(ra, rb) == seq![ra[0]] + crate::model::merge2(
                            ra.drop_first(),
                            rb,
                        ));
                    } else {
                        assert(rb =~= Seq::<EntryModel>::empty());
                        assert(crate::model::merge2(ra, rb) == ra);
                        assert(ra =~= seq![ra[0]] + ra.drop_first());
                        assert(crate::model::merge2(ra.drop_first(), rb) == ra.drop_first());
                    }
                    assert(entries_view(out@) + crate::model::merge2(
                        va.skip((i + 1) as int),
                        vb.skip(j as int),
                    ) =~= out0 + crate::model::merge2(ra, rb));
                }
                i = i + 1;
            }
        } else {
            let e = clone_entry(&b[j]);
            proof {
                assert(entry_view(e) == vb[j as int]);
            }
            out.push(e);
            proof {
                assert(entries_view(out@) =~= out0.push(vb[j as int])) by {
                    assert forall|q: int| 0 <= q < out@.len() implies entries_view(out@)[q]
                        == out0.push(vb[j as int])[q] by {
                        assert(entries_view(out@)[q] == entry_view(out@[q]));
                    }
                }
                if i < na {
                    assert(crate::model::merge2(ra, rb) == seq![rb[0]] + crate::model::merge2(
                        ra,
                        rb.drop_first(),
                    ));
                } else {
                    assert(ra =~= Seq::<EntryModel>::empty());
                    assert(crate::model::merge2(ra, rb) == rb);
                    assert(rb =~= seq![rb[0]] + rb.drop_first());
                    assert(crate::model::merge2(ra, rb.drop_first()) == rb.drop_first());
                }
                assert(entries_view(out@) + crate::model::merge2(
                    va.skip(i as int),
                    vb.skip((j + 1) as int),
                ) =~= out0 + crate::model::merge2(ra, rb));
            }
            j = j + 1;
        }
    }
    proof {
        assert(va.skip(i as int) =~= Seq::<EntryModel>::empty());
        assert(vb.skip(j as int) =~= Seq::<EntryModel>::empty());
        assert(crate::model::merge2(Seq::<EntryModel>::empty(), Seq::<EntryModel>::empty())
            =~= Seq::<EntryModel>::empty());
        assert(entries_view(out@) + Seq::<EntryModel>::empty() =~= entries_view(out@));
    }
    out
}

/// Keep only the live entries of a run.
fn drop_tombs_exec(es: &Vec<(String, Option<String>)>) -> (r: Vec<(String, Option<String>)>)
    ensures
        entries_view(r@) == crate::model::drop_tombstones(entries_view(es@)),
{
    let ghost ve = entries_view(es@);
    let n = es.len();
    let mut out: Vec<(String, Option<String>)> = Vec::new();
    let mut i: usize = 0;
    proof {
        assert(ve.take(0) =~= Seq::<EntryModel>::empty());
        assert(entries_view(out@) =~= crate::model::drop_tombstones(ve.take(0)));
    }
    while i < n
        invariant
            n == es@.len(),
            ve == entries_view(es@),
            0 <= i <= n,
            entries_view(out@) == crate::model::drop_tombstones(ve.take(i as int)),
        decreases n - i,
    {
        let ghost out0 = entries_view(out@);
        proof {
            assert(ve[i as int] == entry_view(es@[i as int]));
            assert(ve.take((i + 1) as int) =~= ve.take(i as int).push(ve[i as int]));
            crate::model::lemma_drop_tombstones_snoc(ve.take(i as int), ve[i as int]);
        }
        let keep = match &es[i].1 {
            Some(v) => true,
            None => false,
        };
        if keep {
            let e = clone_entry(&es[i]);
            out.push(e);
            proof {
                assert(entries_view(out@) =~= out0.push(ve[i as int])) by {
                    assert forall|q: int| 0 <= q < out@.len() implies entries_view(out@)[q]
                        == out0.push(ve[i as int])[q] by {
                        assert(entries_view(out@)[q] == entry_view(out@[q]));
                    }
                }
            }
        }
        i = i + 1;
    }
    proof {
        assert(ve.take(n as int) =~= ve);
    }
    out
}

/// Removing an absent name leaves the files unchanged.
proof fn lemma_remove_absent(files: Seq<(Seq<char>, Seq<u8>)>, n: Seq<char>)
    requires
        forall|i: int| 0 <= i < files.len() ==> (#[trigger] files[i]).0 != n,
    ensures
        remove_file(files, n) == files,
    decreases files.len(),
{
    if files.len() > 0 {
        assert(forall|i: int|
            0 <= i < files.drop_first().len() ==> (#[trigger] files.drop_first()[i]).0 != n);
        lemma_remove_absent(files.drop_first(), n);
        assert(remove_file(files, n) =~= files);
    }
}

/// Removing the head's name removes exactly the head when the rest
/// carries other names.
proof fn lemma_remove_head(files: Seq<(Seq<char>, Seq<u8>)>, n: Seq<char>)
    requires
        files.len() > 0,
        files[0].0 == n,
        forall|i: int| 1 <= i < files.len() ==> (#[trigger] files[i]).0 != n,
    ensures
        remove_file(files, n) == files.drop_first(),
{
    assert(forall|i: int|
        0 <= i < files.drop_first().len() ==> (#[trigger] files.drop_first()[i]).0 != n);
    lemma_remove_absent(files.drop_first(), n);
}


/// Two distinct directory entries carry table names with the same
/// generation.
pub open spec fn dup_gen(fv: Seq<(Seq<char>, Seq<u8>)>) -> bool {
    exists|j1: int, j2: int, g: u64, c1: bool, c2: bool|
        #![trigger fv[j1], fv[j2], sst_name_chars(g as nat, c1), sst_name_chars(g as nat, c2)]
        0 <= j1 < fv.len() && 0 <= j2 < fv.len() && j1 != j2 && fv[j1].0 == sst_name_chars(
            g as nat,
            c1,
        ) && fv[j2].0 == sst_name_chars(g as nat, c2)
}

/// The name of some table generation.
pub open spec fn is_table_name(s: Seq<char>) -> bool {
    exists|g: u64, c: bool| s == #[trigger] sst_name_chars(g as nat, c)
}

/// A directory that recovery is guaranteed to accept: every file is a
/// well-named table whose image parses, generations are unique, and none
/// has exhausted the generation counter.
pub open spec fn loadable(fv: Seq<(Seq<char>, Seq<u8>)>) -> bool {
    &&& forall|j: int| 0 <= j < fv.len() ==> is_table_name((#[trigger] fv[j]).0)
    &&& forall|j: int| 0 <= j < fv.len() ==> parse_table((#[trigger] fv[j]).1) is Some
    &&& !dup_gen(fv)
    &&& forall|j: int, g: u64, c: bool|
        #![trigger fv[j], sst_name_chars(g as nat, c)]
        0 <= j < fv.len() && fv[j].0 == sst_name_chars(g as nat, c) ==> g
            < 0xFFFF_FFFF_FFFF_FFFEu64
}

/// What recovery promises of the engine it rebuilds: the memtable is the
/// replay of the log's well-formed prefix, the log was normalised to
/// that prefix, and every table-named directory entry is open as a table
/// under its generation.
pub open spec fn recovered(db: Database, wal_in: Seq<u8>, fv: Seq<(Seq<char>, Seq<u8>)>) -> bool {
    &&& db.wf()
    &&& db.mt() == replay_onto(Seq::<EntryModel>::empty(), parse_wal(wal_in))
    &&& db.persisted().wal == enc_wal(parse_wal(wal_in))
    &&& db.table_infos().len() <= fv.len()
    &&& forall|j: int, g: u64, c: bool|
        #![trigger fv[j], sst_name_chars(g as nat, c)]
        0 <= j < fv.len() && fv[j].0 == sst_name_chars(g as nat, c) ==> exists|w: int|
            {
                &&& 0 <= w < db.table_infos().len()
                &&& (#[trigger] db.table_infos()[w]).gen == g
                &&& db.table_infos()[w].compacted == c
                &&& db.table_infos()[w].name == fv[j].0
                &&& db.table_infos()[w].file == fv[j].1
            }
    &&& forall|w: int|
        0 <= w < db.table_infos().len() ==> exists|j: int|
            0 <= j < fv.len() && (#[trigger] db.table_infos()[w]).name == fv[j].0
                && db.table_infos()[w].file == fv[j].1
}

/// The sorting helper's tie between collected tables and the directory.
spec fn tabs_tied(ts: Seq<TableEntry>, srcs: Seq<int>, fv: Seq<(Seq<char>, Seq<u8>)>) -> bool {
    &&& srcs.len() == ts.len()
    &&& forall|w: int|
        0 <= w < ts.len() ==> {
            &&& 0 <= #[trigger] srcs[w] < fv.len()
            &&& fv[srcs[w]].0 == ts[w].name@
            &&& fv[srcs[w]].1 == ts[w].reader.file()
            &&& ts[w].reader.wf()
            &&& ts[w].name@ == sst_name_chars(ts[w].gen as nat, ts[w].compacted)
        }
}

/// Source indices are pairwise distinct across the two lists.
spec fn srcs_distinct(a: Seq<int>, b: Seq<int>) -> bool {
    &&& forall|w1: int, w2: int| 0 <= w1 < w2 < a.len() ==> #[trigger] a[w1] != #[trigger] a[w2]
    &&& forall|w1: int, w2: int| 0 <= w1 < w2 < b.len() ==> #[trigger] b[w1] != #[trigger] b[w2]
    &&& forall|w1: int, w2: int|
        0 <= w1 < a.len() && 0 <= w2 < b.len() ==> #[trigger] a[w1] != #[trigger] b[w2]
}

/// Order collected tables by strictly descending generation; two tables
/// sharing a generation are reported as damage.
#[verifier::rlimit(100)]
fn sort_tables(
    tabs: Vec<TableEntry>,
    Ghost(srcs): Ghost<Seq<int>>,
    Ghost(fv): Ghost<Seq<(Seq<char>, Seq<u8>)>>,
) -> (r: Result<Vec<TableEntry>, DbError>)
    requires
        tabs_tied(tabs@, srcs, fv),
        srcs_distinct(srcs, Seq::<int>::empty()),
    ensures
        match r {
            Ok(sorted) => {
                &&& sorted@.len() == tabs@.len()
                &&& exists|srcs2: Seq<int>|
                    tabs_tied(sorted@, srcs2, fv) && srcs_distinct(srcs2, Seq::<int>::empty())
                &&& forall|w1: int, w2: int|
                    0 <= w1 < w2 < sorted@.len() ==> (#[trigger] sorted@[w1]).gen > (
                    #[trigger] sorted@[w2]).gen
                &&& forall|w: int| 0 <= w < tabs@.len() ==> sorted@.contains(#[trigger] tabs@[w])
            },
            Err(e) => e == DbError::Corruption && dup_gen(fv),
        },
{
    let ghost tabs0 = tabs@;
    let mut tabs = tabs;
    let mut sorted: Vec<TableEntry> = Vec::new();
    let ghost mut tsrcs = srcs;
    let ghost mut ssrcs = Seq::<int>::empty();
    proof {
        assert forall|w: int| 0 <= w < tabs0.len() implies tabs@.contains(#[trigger] tabs0[w]) by {
            assert(tabs@[w] == tabs0[w]);
        }
    }
    loop
        invariant
            tabs_tied(tabs@, tsrcs, fv),
            tabs_tied(sorted@, ssrcs, fv),
            srcs_distinct(ssrcs, tsrcs),
            sorted@.len() + tabs@.len() == tabs0.len(),
            forall|w1: int, w2: int|
                0 <= w1 < w2 < sorted@.len() ==> (#[trigger] sorted@[w1]).gen > (
                #[trigger] sorted@[w2]).gen,
            forall|w: int|
                0 <= w < tabs0.len() ==> sorted@.contains(#[trigger] tabs0[w]) || tabs@.contains(
                    tabs0[w],
                ),
        ensures
            tabs@.len() == 0,
        decreases tabs@.len(),
    {
        let ghost tabs_pre = tabs@;
        let ghost tsrcs_pre = tsrcs;
        let t = match tabs.pop() {
            Some(t) => t,
            None => {
                break ;
            },
        };
        let ghost p = tsrcs.last();
        proof {
            tsrcs = tsrcs.drop_last();
            assert(tabs@ =~= tabs_pre.drop_last());
            assert(t == tabs_pre.last());
        }
        let sn = sorted.len();
        let mut w: usize = 0;
        while w < sn
            invariant
                sn == sorted@.len(),
                0 <= w <= sn,
                forall|w2: int| 0 <= w2 < w ==> (#[trigger] sorted@[w2]).gen > t.gen,
            ensures
                0 <= w <= sn,
                forall|w2: int| 0 <= w2 < w ==> (#[trigger] sorted@[w2]).gen > t.gen,
                w < sn ==> sorted@[w as int].gen <= t.gen,
            decreases sn - w,
        {
            if sorted[w].gen > t.gen {
                w = w + 1;
            } else {
                break ;
            }
        }
        if w < sn && sorted[w].gen == t.gen {
            proof {
                let sp = ssrcs[w as int];
                assert(fv[sp].0 == sorted@[w as int].name@);
                assert(fv[p].0 == t.name@);
                assert(sp != p);
                let g = t.gen;
                assert(fv[sp].0 == sst_name_chars(
                    g as nat,
                    sorted@[w as int].compacted,
                ));
                assert(fv[p].0 == sst_name_chars(g as nat, t.compacted));
                assert(dup_gen(fv));
            }
            return Err(DbError::Corruption);
        }
        let ghost sorted_pre = sorted@;
        let ghost ssrcs_pre = ssrcs;
        sorted.insert(w, t);
        proof {
            ssrcs = ssrcs_pre.insert(w as int, p);
            assert(sorted@ =~= sorted_pre.insert(w as int, t));
            assert(tabs_tied(sorted@, ssrcs, fv)) by {
                assert forall|w2: int| 0 <= w2 < sorted@.len() implies {
                    &&& 0 <= #[trigger] ssrcs[w2] < fv.len()
                    &&& fv[ssrcs[w2]].0 == sorted@[w2].name@
                    &&& fv[ssrcs[w2]].1 == sorted@[w2].reader.file()
                    &&& sorted@[w2].reader.wf()
                    &&& sorted@[w2].name@ == sst_name_chars(
                        sorted@[w2].gen as nat,
                        sorted@[w2].compacted,
                    )
                } by {
                    if w2 < w as int {
                        assert(sorted@[w2] == sorted_pre[w2]);
                        assert(ssrcs[w2] == ssrcs_pre[w2]);
                    } else if w2 == w as int {
                        assert(sorted@[w2] == t);
                        assert(ssrcs[w2] == p);
                    } else {
                        assert(sorted@[w2] == sorted_pre[w2 - 1]);
                        assert(ssrcs[w2] == ssrcs_pre[w2 - 1]);
                    }
                }
            }
            assert(srcs_distinct(ssrcs, tsrcs)) by {
                assert forall|w1: int, w2: int|
                    0 <= w1 < w2 < ssrcs.len() implies #[trigger] ssrcs[w1] != #[trigger] ssrcs[w2] by {
                    let a1 = if w1 < w as int {
                        ssrcs_pre[w1]
                    } else if w1 == w as int {
                        p
                    } else {
                        ssrcs_pre[w1 - 1]
                    };
                    let a2 = if w2 < w as int {
                        ssrcs_pre[w2]
                    } else if w2 == w as int {
                        p
                    } else {
                        ssrcs_pre[w2 - 1]
                    };
                    assert(ssrcs[w1] == a1);
                    assert(ssrcs[w2] == a2);
                }
                assert forall|w1: int, w2: int|
                    0 <= w1 < ssrcs.len() && 0 <= w2 < tsrcs.len() implies #[trigger] ssrcs[w1]
                    != #[trigger] tsrcs[w2] by {
                    let a1 = if w1 < w as int {
                        ssrcs_pre[w1]
                    } else if w1 == w as int {
                        p
                    } else {
                        ssrcs_pre[w1 - 1]
                    };
                    assert(ssrcs[w1] == a1);
                    assert(tsrcs[w2] == tsrcs_pre[w2]);
                }
            }
            assert forall|w1: int, w2: int|
                0 <= w1 < w2 < sorted@.len() implies (#[trigger] sorted@[w1]).gen > (
            #[trigger] sorted@[w2]).gen by {
                let a1 = if w1 < w as int {
                    sorted_pre[w1]
                } else if w1 == w as int {
                    t
                } else {
                    sorted_pre[w1 - 1]
                };
                let a2 = if w2 < w as int {
                    sorted_pre[w2]
                } else if w2 == w as int {
                    t
                } else {
                    sorted_pre[w2 - 1]
                };
                assert(sorted@[w1] == a1);
                assert(sorted@[w2] == a2);
            }
            assert forall|w0: int|
                0 <= w0 < tabs0.len() implies sorted@.contains(#[trigger] tabs0[w0])
                || tabs@.contains(tabs0[w0]) by {
                if sorted_pre.contains(tabs0[w0]) {
                    let w2 = choose|w2: int|
                        0 <= w2 < sorted_pre.len() && sorted_pre[w2] == tabs0[w0];
                    if w2 < w as int {
                        assert(sorted@[w2] == tabs0[w0]);
                    } else {
                        assert(sorted@[w2 + 1] == tabs0[w0]);
                    }
                    assert(sorted@.contains(tabs0[w0]));
                } else if tabs_pre.contains(tabs0[w0]) {
                    let w2 = choose|w2: int| 0 <= w2 < tabs_pre.len() && tabs_pre[w2] == tabs0[w0];
                    if w2 < tabs@.len() {
                        assert(tabs@[w2] == tabs0[w0]);
                        assert(tabs@.contains(tabs0[w0]));
                    } else {
                        assert(tabs_pre[w2] == t);
                        assert(sorted@[w as int] == tabs0[w0]);
                        assert(sorted@.contains(tabs0[w0]));
                    }
                }
            }
        }
    }
    proof {
        assert(tabs_tied(sorted@, ssrcs, fv));
        assert(srcs_distinct(ssrcs, Seq::<int>::empty()));
    }
    Ok(sorted)
}


/// The directory files as name and image views.
pub open spec fn files_view(fs: Seq<SstFile>) -> Seq<(Seq<char>, Seq<u8>)> {
    fs.map_values(|f: SstFile| (f.name@, f.bytes@))
}

impl Database {
    /// Rebuild an engine from the log image and the directory's files.
    /// The log's well-formed prefix is replayed into the memtable and
    /// becomes the new log; every file named as a table is opened, and
    /// the tables are ordered by descending generation.  A table image
    /// that does not parse, two tables sharing a generation, or a file
    /// carrying the table extension without a table name, are
    /// corruption; files of other kinds are ignored.
    #[verifier::rlimit(100)]
    pub fn load(wal_bytes: Vec<u8>, files: Vec<SstFile>) -> (r: Result<Database, DbError>)
        ensures
            match r {
                Ok(db) => recovered(db, wal_bytes@, files_view(files@)) && db.spec_policy()
                    == CompactionPolicy::Disabled && db.spec_next_gen() < u64::MAX,
                Err(e) => e == DbError::Corruption,
            },
            loadable(files_view(files@)) ==> r is Ok,
    {
        let ghost fv = files_view(files@);
        let mut memtable = MemTable::new();
        let mut wal = WAL::new();
        let mut it = crate::wal::WALIterator::new(wal_bytes);
        proof {
            assert(replay_onto(Seq::<EntryModel>::empty(), Seq::<EntryModel>::empty())
                == Seq::<EntryModel>::empty());
        }
        loop
            invariant
                it.wf(),
                memtable.wf(),
                memtable.model().len() == 0 ==> memtable.spec_size() == 0,
                wal.wf(),
                wal.ops() == it.yielded(),
                it.src() == wal_bytes@,
                memtable.model() == replay_onto(Seq::<EntryModel>::empty(), it.yielded()),
            ensures
                memtable.wf(),
                memtable.model().len() == 0 ==> memtable.spec_size() == 0,
                wal.wf(),
                wal.ops() == parse_wal(wal_bytes@),
                memtable.model() == replay_onto(Seq::<EntryModel>::empty(), parse_wal(wal_bytes@)),
            decreases it.src().len() - it.spec_pos(),
        {
            let ghost y0 = it.yielded();
            let nxt = it.next();
            match nxt {
                Some(Err(_)) => {
                    // a torn or damaged tail: keep the well-formed prefix
                    break ;
                },
                Some(Ok(e)) => {
                    proof {
                        crate::model::lemma_replay_snoc(
                            Seq::<EntryModel>::empty(),
                            y0,
                            entry_view(e),
                        );
                        crate::model::lemma_store_len(
                            replay_onto(Seq::<EntryModel>::empty(), y0),
                            entry_view(e).0,
                            entry_view(e).1,
                        );
                    }
                    match e {
                        (k, Some(v)) => {
                            let _ = wal.set(k.as_str(), v.as_str());
                            memtable.set(k, v);
                        },
                        (k, None) => {
                            let _ = wal.del(k.as_str());
                            memtable.del(k);
                        },
                    }
                },
                None => {
                    break ;
                },
            }
        }
        let nf = files.len();
        let mut tabs: Vec<TableEntry> = Vec::new();
        let ghost mut srcs = Seq::<int>::empty();
        let mut j: usize = 0;
        while j < nf
            invariant
                nf == files@.len(),
                fv == files_view(files@),
                0 <= j <= nf,
                tabs_tied(tabs@, srcs, fv),
                forall|w1: int, w2: int|
                    0 <= w1 < w2 < srcs.len() ==> #[trigger] srcs[w1] < #[trigger] srcs[w2],
                forall|w: int| 0 <= w < srcs.len() ==> #[trigger] srcs[w] < j,
                tabs@.len() <= j,
                forall|j2: int, g: u64, c: bool|
                    #![trigger fv[j2], sst_name_chars(g as nat, c)]
                    0 <= j2 < j && fv[j2].0 == sst_name_chars(g as nat, c) ==> exists|w: int|
                        {
                            &&& 0 <= w < tabs@.len()
                            &&& (#[trigger] tabs@[w]).gen == g
                            &&& tabs@[w].compacted == c
                            &&& tabs@[w].name@ == fv[j2].0
                            &&& tabs@[w].reader.file() == fv[j2].1
                        },
            decreases nf - j,
        {
            let f = &files[j];
            proof {
                assert(fv[j as int] == (f.name@, f.bytes@));
            }
            let parsed = crate::names::parse_sst_name(f.name.as_str());
            let ghost tabs_pre = tabs@;
            let ghost srcs_pre = srcs;
            let mut took = false;
            let mut named = false;
            match parsed {
                Some((g, c)) => {
                    let canon = sst_file_name(g, c);
                    if f.name.eq(&canon) {
                        named = true;
                        let bytes2 = vstd::slice::slice_to_vec(f.bytes.as_slice());
                        match SSTableReader::new(bytes2) {
                            Ok(rd) => {
                                tabs.push(
                                    TableEntry {
                                        name: clone_string(&f.name),
                                        gen: g,
                                        compacted: c,
                                        reader: rd,
                                    },
                                );
                                proof {
                                    srcs = srcs.push(j as int);
                                }
                                took = true;
                            },
                            Err(_) => {
                                proof {
                                    assert(!loadable(fv)) by {
                                        if loadable(fv) {
                                            assert(parse_table(fv[j as int].1) is Some);
                                        }
                                    }
                                }
                                return Err(DbError::Corruption);
                            },
                        }
                    } else {
                        proof {
                            assert(!is_table_name(f.name@)) by {
                                if is_table_name(f.name@) {
                                    let (g2, c2) = choose|g2: u64, c2: bool|
                                        f.name@ == #[trigger] sst_name_chars(g2 as nat, c2);
                                    assert(parsed == Some((g2, c2)));
                                }
                            }
                        }
                    }
                },
                None => {
                    proof {
                        assert(!is_table_name(f.name@)) by {
                            if is_table_name(f.name@) {
                                let (g2, c2) = choose|g2: u64, c2: bool|
                                    f.name@ == #[trigger] sst_name_chars(g2 as nat, c2);
                                assert(parsed == Some((g2, c2)));
                            }
                        }
                    }
                },
            }
            if !named {
                // a file carrying the table extension without a table
                // name is damage; files of other kinds are ignored
                let nb = f.name.as_str().as_bytes();
                let ln = nb.len();
                if ln >= 4 && nb[ln - 4] == 46 && nb[ln - 3] == 115 && nb[ln - 2] == 115 && nb[ln
                    - 1] == 116 {
                    proof {
                        assert(!loadable(fv)) by {
                            if loadable(fv) {
                                assert(is_table_name(fv[j as int].0));
                            }
                        }
                    }
                    return Err(DbError::Corruption);
                }
            }
            proof {
                if took {
                    assert(tabs@ =~= tabs_pre.push(tabs@.last()));
                    assert(tabs_tied(tabs@, srcs, fv)) by {
                        assert forall|w: int| 0 <= w < tabs@.len() implies {
                            &&& 0 <= #[trigger] srcs[w] < fv.len()
                            &&& fv[srcs[w]].0 == tabs@[w].name@
                            &&& fv[srcs[w]].1 == tabs@[w].reader.file()
                            &&& tabs@[w].reader.wf()
                            &&& tabs@[w].name@ == sst_name_chars(
                                tabs@[w].gen as nat,
                                tabs@[w].compacted,
                            )
                        } by {
                            if w < tabs_pre.len() {
                                assert(tabs@[w] == tabs_pre[w]);
                                assert(srcs[w] == srcs_pre[w]);
                            } else {
                                assert(srcs[w] == j as int);
                            }
                        }
                    }
                }
                assert forall|j2: int, g: u64, c: bool|
                    #![trigger fv[j2], sst_name_chars(g as nat, c)]
                    0 <= j2 < j + 1 && fv[j2].0 == sst_name_chars(g as nat, c) implies exists|
                    w: int,
                |
                    {
                        &&& 0 <= w < tabs@.len()
                        &&& (#[trigger] tabs@[w]).gen == g
                        &&& tabs@[w].compacted == c
                        &&& tabs@[w].name@ == fv[j2].0
                        &&& tabs@[w].reader.file() == fv[j2].1
                    } by {
                    if j2 < j as int {
                        let w0 = choose|w0: int|
                            {
                                &&& 0 <= w0 < tabs_pre.len()
                                &&& (#[trigger] tabs_pre[w0]).gen == g
                                &&& tabs_pre[w0].compacted == c
                                &&& tabs_pre[w0].name@ == fv[j2].0
                                &&& tabs_pre[w0].reader.file() == fv[j2].1
                            };
                        assert(tabs@[w0] == tabs_pre[w0]);
                    } else {
                        // this file is table-named, so the parse recognised it
                        assert(f.name@ == sst_name_chars(g as nat, c));
                        assert(parsed == Some((g, c)));
                        assert(took) by {
                            let (g2, c2) = parsed->0;
                            assert(g2 == g && c2 == c);
                        }
                        assert(tabs@.last().gen == g);
                        assert(tabs@[tabs@.len() - 1] == tabs@.last());
                    }
                }
            }
            j = j + 1;
        }
        let sorted = match sort_tables(tabs, Ghost(srcs), Ghost(fv)) {
            Ok(st) => st,
            Err(_) => {
                proof {
                    assert(!loadable(fv));
                }
                return Err(DbError::Corruption);
            },
        };
        let ghost ssrcs = choose|srcs2: Seq<int>|
            tabs_tied(sorted@, srcs2, fv) && srcs_distinct(srcs2, Seq::<int>::empty());
        let next_gen: u64;
        if sorted.len() == 0 {
            next_gen = 1;
        } else {
            let g0 = sorted[0].gen;
            if g0 >= u64::MAX - 1 {
                proof {
                    assert(!loadable(fv)) by {
                        if loadable(fv) {
                            let sp = ssrcs[0];
                            assert(fv[sp].0 == sst_name_chars(
                                sorted@[0].gen as nat,
                                sorted@[0].compacted,
                            ));
                        }
                    }
                }
                return Err(DbError::Corruption);
            }
            next_gen = g0 + 1;
        }
        let db = Database {
            memtable,
            wal,
            tables: sorted,
            next_gen,
            policy: CompactionPolicy::Disabled,
            last_compaction_micros: 0,
        };
        proof {
            assert(tabs_tied(sorted@, ssrcs, fv));
            assert(db.wf()) by {
                assert forall|w: int| 0 <= w < db.tables@.len() implies (
                #[trigger] db.tables@[w]).reader.wf() && db.tables@[w].name@ == sst_name_chars(
                    db.tables@[w].gen as nat,
                    db.tables@[w].compacted,
                ) by {
                    assert(db.tables@[w] == sorted@[w]);
                    assert(0 <= ssrcs[w] < fv.len());
                }
                assert forall|w: int| 0 <= w < db.tables@.len() implies (#[trigger] db.tables@[w]).gen
                    < db.next_gen by {
                    if w > 0 {
                        assert(db.tables@[0].gen > db.tables@[w].gen);
                    }
                }
            }
            db.wal.lemma_wf_image();
            assert(recovered(db, wal_bytes@, fv)) by {
                assert(db.persisted().wal == enc_wal(parse_wal(wal_bytes@)));
                assert(db.table_infos().len() == db.tables@.len());
                assert(db.table_infos().len() <= fv.len());
                assert forall|j2: int, g: u64, c: bool|
                    #![trigger fv[j2], sst_name_chars(g as nat, c)]
                    0 <= j2 < fv.len() && fv[j2].0 == sst_name_chars(g as nat, c) implies exists|
                    w: int,
                |
                    {
                        &&& 0 <= w < db.table_infos().len()
                        &&& (#[trigger] db.table_infos()[w]).gen == g
                        &&& db.table_infos()[w].compacted == c
                        &&& db.table_infos()[w].name == fv[j2].0
                        &&& db.table_infos()[w].file == fv[j2].1
                    } by {
                    let w0 = choose|w0: int|
                        {
                            &&& 0 <= w0 < tabs@.len()
                            &&& (#[trigger] tabs@[w0]).gen == g
                            &&& tabs@[w0].compacted == c
                            &&& tabs@[w0].name@ == fv[j2].0
                            &&& tabs@[w0].reader.file() == fv[j2].1
                        };
                    assert(sorted@.contains(tabs@[w0]));
                    let w1 = choose|w1: int| 0 <= w1 < sorted@.len() && sorted@[w1] == tabs@[w0];
                    assert(db.table_infos()[w1].gen == g);
                }
                assert forall|w: int|
                    0 <= w < db.table_infos().len() implies exists|j2: int|
                    0 <= j2 < fv.len() && (#[trigger] db.table_infos()[w]).name == fv[j2].0
                        && db.table_infos()[w].file == fv[j2].1 by {
                    assert(0 <= ssrcs[w] < fv.len());
                    assert(fv[ssrcs[w]].0 == sorted@[w].name@);
                    assert(fv[ssrcs[w]].1 == sorted@[w].reader.file());
                }
            }
        }
        Ok(db)
    }

    /// A copy of the current log image, for the shell to persist.
    pub fn wal_image(&self) -> (r: Vec<u8>)
        ensures
            r@ == self.persisted().wal,
    {
        self.wal.image_bytes()
    }

    /// A well-formed engine's tiers are sorted runs.
    pub proof fn lemma_wf_runs_sorted(self)
        requires
            self.wf(),
        ensures
            entries_sorted(self.mt()),
            forall|i: int|
                0 <= i < self.tables_model().len() ==> entries_sorted(
                    #[trigger] self.tables_model()[i],
                ),
    {
        assert forall|i: int|
            0 <= i < self.tables_model().len() implies entries_sorted(
            #[trigger] self.tables_model()[i],
        ) by {
            assert(self.tables_model()[i] == self.tables@[i].reader.model());
            self.tables@[i].reader.lemma_wf_model();
        }
    }

    /// The persisted table files: each open table's name and image,
    /// newest first.
    pub fn sst_files(&self) -> (r: Vec<SstFile>)
        ensures
            files_view(r@) == self.persisted().files,
    {
        let n = self.tables.len();
        let mut r: Vec<SstFile> = Vec::new();
        let mut i: usize = 0;
        proof {
            assert(files_view(r@) =~= self.persisted().files.take(0));
        }
        while i < n
            invariant
                n == self.tables@.len(),
                0 <= i <= n,
                files_view(r@) =~= self.persisted().files.take(i as int),
            decreases n - i,
        {
            let t = &self.tables[i];
            let f = SstFile { name: clone_string(&t.name), bytes: t.reader.file_bytes() };
            let ghost fval = f;
            let ghost r0 = r@;
            proof {
                assert(files_view(r0).len() == r0.len());
                assert(self.persisted().files.take(i as int).len() == i);
                assert(r0.len() == i as int);
            }
            r.push(f);
            proof {
                assert(r@ == r0.push(fval));
                assert(files_view(r@) =~= self.persisted().files.take((i + 1) as int)) by {
                    assert(self.persisted().files[i as int] == (self.tables@[i as int].name@,
                        self.tables@[i as int].reader.file()));
                    assert(fval.name@ == self.tables@[i as int].name@);
                    assert(fval.bytes@ == self.tables@[i as int].reader.file());
                    assert forall|w: int| 0 <= w < r@.len() implies files_view(r@)[w]
                        == self.persisted().files.take((i + 1) as int)[w] by {
                        assert(files_view(r@)[w] == (r@[w].name@, r@[w].bytes@));
                        if w < r0.len() {
                            assert(r@[w] == r0[w]);
                            assert(files_view(r0)[w] == (r0[w].name@, r0[w].bytes@));
                        } else {
                            assert(r@[w] == fval);
                        }
                    }
                }
            }
            i = i + 1;
        }
        proof {
            assert(self.persisted().files.take(n as int) =~= self.persisted().files);
        }
        r
    }

    /// The generation the next sealed table will carry.
    pub fn next_generation(&self) -> (r: u64)
        ensures
            r == self.spec_next_gen(),
    {
        self.next_gen
    }

    /// How many sealed tables are open.
    pub fn sstable_count(&self) -> (r: usize)
        ensures
            r == self.tables_model().len(),
    {
        self.tables.len()
    }

    /// The instant compaction last ran, in microseconds.
    pub closed spec fn spec_last_compaction(self) -> u64 {
        self.last_compaction_micros
    }

    /// Choose when periodic compaction runs.
    pub fn set_compaction_policy(&mut self, policy: CompactionPolicy)
        requires
            old(self).wf(),
        ensures
            final(self).wf(),
            final(self).spec_policy() == policy,
            final(self).mt() == old(self).mt(),
            final(self).tables_model() == old(self).tables_model(),
            final(self).persisted() == old(self).persisted(),
            final(self).spec_next_gen() == old(self).spec_next_gen(),
            forall|k: Seq<char>| #[trigger]
                final(self).spec_get(k) == old(self).spec_get(k),
    {
        self.policy = policy;
    }

    /// Whether the policy asks for a compaction at the given instant:
    /// the configured duration has elapsed since the last one.
    pub open spec fn spec_due(self, now_micros: u64) -> bool {
        match self.spec_policy() {
            CompactionPolicy::Periodic(d) => now_micros >= self.spec_last_compaction()
                && now_micros - self.spec_last_compaction() >= d,
            CompactionPolicy::Disabled => false,
        }
    }

    /// Whether the policy asks for a compaction at the given instant.
    pub fn compaction_due(&self, now_micros: u64) -> (r: bool)
        ensures
            r == self.spec_due(now_micros),
    {
        match self.policy {
            CompactionPolicy::Periodic(d) => now_micros >= self.last_compaction_micros
                && now_micros - self.last_compaction_micros >= d,
            CompactionPolicy::Disabled => false,
        }
    }

    /// Run a compaction when the policy says one is due, and remember
    /// the instant it ran.  When none is due, nothing changes and no
    /// file operation is issued.
    pub fn maybe_compact(&mut self, now_micros: u64) -> (r: Result<Vec<FileOp>, DbError>)
        requires
            old(self).wf(),
            old(self).spec_next_gen() < u64::MAX - 1,
        ensures
            r is Ok,
            final(self).wf(),
            forall|k: Seq<char>| #[trigger]
                final(self).spec_get(k) == old(self).spec_get(k),
            match r {
                Ok(eff) => apply_ops(old(self).persisted(), eff@) == final(self).persisted(),
                Err(e) => false,
            },
            final(self).spec_policy() == old(self).spec_policy(),
            final(self).spec_next_gen() <= old(self).spec_next_gen() + 2,
            !old(self).spec_due(now_micros) ==> *final(self) == *old(self) && (match r {
                Ok(eff) => eff@.len() == 0,
                Err(e) => false,
            }),
            old(self).spec_due(now_micros) ==> {
                &&& final(self).mt().len() == 0
                &&& final(self).wal_ops().len() == 0
                &&& final(self).tables_model().len() <= 1
                &&& ((old(self).mt().len() > 0 || old(self).tables_model().len() > 0)
                    ==> final(self).tables_model().len() == 1)
                &&& final(self).persisted().files.len() == final(self).tables_model().len()
                &&& final(self).spec_last_compaction() == now_micros
            },
    {
        if self.compaction_due(now_micros) {
            let eff = match self.compact() {
                Ok(eff) => eff,
                Err(e) => {
                    proof {
                        assert(false);
                    }
                    return Err(e);
                },
            };
            let ghost mid = *self;
            self.last_compaction_micros = now_micros;
            proof {
                assert(self.memtable == mid.memtable);
                assert(self.tables == mid.tables);
                assert(self.wal == mid.wal);
                assert(self.mt() == mid.mt());
                assert(self.tables_model() == mid.tables_model());
                assert(self.persisted() == mid.persisted());
                assert(self.wf());
                assert forall|k: Seq<char>| #[trigger]
                    self.spec_get(k) == old(self).spec_get(k) by {
                    assert(mid.spec_get(k) == old(self).spec_get(k));
                    assert(self.spec_get(k) == mid.spec_get(k));
                }
            }
            Ok(eff)
        } else {
            let eff: Vec<FileOp> = Vec::new();
            proof {
                assert(apply_ops(old(self).persisted(), eff@) == old(self).persisted());
            }
            Ok(eff)
        }
    }
}


/// Convert live scan pairs into entries.
fn pairs_to_entries(v: &Vec<(String, String)>) -> (r: Vec<(String, Option<String>)>)
    ensures
        entries_view(r@) == crate::sstable::reader::pairs_view(v@),
{
    let n = v.len();
    let mut r: Vec<(String, Option<String>)> = Vec::new();
    let mut i: usize = 0;
    proof {
        assert(entries_view(r@) =~= crate::sstable::reader::pairs_view(v@.take(0)));
    }
    while i < n
        invariant
            n == v@.len(),
            0 <= i <= n,
            entries_view(r@) == crate::sstable::reader::pairs_view(v@.take(i as int)),
        decreases n - i,
    {
        let ghost r0 = r@;
        proof {
            assert(entries_view(r0).len() == r0.len());
            assert(crate::sstable::reader::pairs_view(v@.take(i as int)).len() == i);
            assert(r0.len() == i as int);
        }
        let e = (clone_string(&v[i].0), Some(clone_string(&v[i].1)));
        r.push(e);
        proof {
            assert(r@.len() == i + 1);
            assert(crate::sstable::reader::pairs_view(v@.take((i + 1) as int)).len() == i + 1);
            assert(entries_view(r@) =~= crate::sstable::reader::pairs_view(
                v@.take((i + 1) as int),
            )) by {
                assert forall|w: int| 0 <= w < r@.len() implies entries_view(r@)[w]
                    == crate::sstable::reader::pairs_view(v@.take((i + 1) as int))[w] by {
                    assert(entries_view(r@)[w] == entry_view(r@[w]));
                    if w < r0.len() {
                        assert(r@[w] == r0[w]);
                        assert(entries_view(r0)[w] == entry_view(r0[w]));
                    } else {
                        assert(r@[w] == e);
                        assert(v@.take((i + 1) as int)[w] == v@[i as int]);
                    }
                }
            }
        }
        i = i + 1;
    }
    proof {
        assert(v@.take(n as int) =~= v@);
    }
    r
}

/// Keep the entries whose keys extend the byte prefix.
fn filter_prefix_entries(v: &Vec<(String, Option<String>)>, prefix: &str) -> (r: Vec<
    (String, Option<String>),
>)
    ensures
        entries_view(r@) == crate::model::prefix_filter(entries_view(v@), prefix@),
{
    let ghost ve = entries_view(v@);
    let n = v.len();
    let mut r: Vec<(String, Option<String>)> = Vec::new();
    let mut i: usize = 0;
    proof {
        assert(ve.take(0) =~= Seq::<EntryModel>::empty());
        assert(entries_view(r@) =~= crate::model::prefix_filter(ve.take(0), prefix@));
    }
    while i < n
        invariant
            n == v@.len(),
            ve == entries_view(v@),
            0 <= i <= n,
            entries_view(r@) == crate::model::prefix_filter(ve.take(i as int), prefix@),
        decreases n - i,
    {
        let ghost r0 = entries_view(r@);
        proof {
            assert(ve[i as int] == entry_view(v@[i as int]));
            assert(ve.take((i + 1) as int) =~= ve.take(i as int).push(ve[i as int]));
            crate::model::lemma_prefix_filter_snoc(ve.take(i as int), ve[i as int], prefix@);
        }
        if crate::order::is_lex_prefix(prefix.as_bytes(), v[i].0.as_str().as_bytes()) {
            let e = clone_entry(&v[i]);
            r.push(e);
            proof {
                assert(entries_view(r@) =~= r0.push(ve[i as int])) by {
                    assert forall|w: int| 0 <= w < r@.len() implies entries_view(r@)[w] == r0.push(
                        ve[i as int],
                    )[w] by {
                        assert(entries_view(r@)[w] == entry_view(r@[w]));
                    }
                }
            }
        }
        i = i + 1;
    }
    proof {
        assert(ve.take(n as int) =~= ve);
    }
    r
}

impl Database {
    /// The overlay a prefix query reads: the sealed tables' live entries
    /// in the range up to the sentinel key, newer tables overwriting
    /// older, overlaid by the memtable's prefix entries, tombstones
    /// included.
    pub open spec fn prefix_overlay(self, p: Seq<char>) -> Seq<EntryModel> {
        crate::model::merge2(
            crate::model::prefix_filter(self.mt(), p),
            crate::model::merge_stack(
                self.tables_model().map_values(
                    |t: Seq<EntryModel>| crate::model::range_live(t, p, p + seq!['\u{10FFFF}']),
                ),
            ),
        )
    }

    /// All live values whose keys extend the prefix, in ascending key
    /// order.  Sealed tables are scanned oldest to newest over
    /// `[prefix, prefix·U+10FFFF]` so newer values overwrite older, the
    /// memtable overlays the result, and tombstones drop their keys.
    #[verifier::rlimit(100)]
    pub fn get_by_prefix(&self, prefix: &str) -> (r: Vec<String>)
        requires
            self.wf(),
        ensures
            r@.map_values(|v: String| v@) == crate::model::drop_tombstones(
                self.prefix_overlay(prefix@),
            ).map_values(|e: EntryModel| e.1->0),
    {
        let ghost p = prefix@;
        let ghost hi = p + seq!['\u{10FFFF}'];
        let mut end_s = prefix.to_owned();
        end_s.append("\u{10FFFF}");
        proof {
            reveal_strlit("\u{10FFFF}");
            assert(("\u{10FFFF}")@ =~= seq!['\u{10FFFF}']);
            assert(end_s@ == hi);
        }
        let ghost scans = self.tables_model().map_values(
            |t: Seq<EntryModel>| crate::model::range_live(t, p, hi),
        );
        let n = self.tables.len();
        let mut acc: Vec<(String, Option<String>)> = Vec::new();
        let mut i: usize = n;
        proof {
            assert(scans.len() == n);
            assert(scans.skip(n as int) =~= Seq::<Seq<EntryModel>>::empty());
            assert(crate::model::merge_stack(Seq::<Seq<EntryModel>>::empty())
                == Seq::<EntryModel>::empty());
            assert(entries_view(acc@) =~= Seq::<EntryModel>::empty());
        }
        while i > 0
            invariant
                self.wf(),
                p == prefix@,
                end_s@ == hi,
                hi == p + seq!['\u{10FFFF}'],
                scans == self.tables_model().map_values(
                    |t: Seq<EntryModel>| crate::model::range_live(t, p, hi),
                ),
                n == self.tables@.len(),
                0 <= i <= n,
                entries_view(acc@) == crate::model::merge_stack(scans.skip(i as int)),
                entries_sorted(entries_view(acc@)),
            decreases i,
        {
            i = i - 1;
            let ghost acc0 = entries_view(acc@);
            let sr = self.tables[i].reader.scan(prefix, end_s.as_str());
            let se = pairs_to_entries(&sr);
            proof {
                assert(self.tables_model()[i as int] == self.tables@[i as int].reader.model());
                self.tables@[i as int].reader.lemma_wf_model();
                assert(scans[i as int] == crate::model::range_live(
                    self.tables@[i as int].reader.model(),
                    p,
                    hi,
                ));
                assert(entries_view(se@) == scans[i as int]);
                crate::model::lemma_range_live_sorted(self.tables@[i as int].reader.model(), p, hi);
                assert(entries_sorted(scans[i as int]));
                crate::model::lemma_merge2(scans[i as int], acc0);
            }
            let acc2 = merge_runs(&se, &acc);
            acc = acc2;
            proof {
                assert(scans.skip(i as int)[0] == scans[i as int]);
                assert(scans.skip(i as int).drop_first() =~= scans.skip((i + 1) as int));
            }
        }
        proof {
            assert(scans.skip(0) =~= scans);
        }
        let mt_entries = self.memtable.iter();
        let mt_f = filter_prefix_entries(&mt_entries, prefix);
        proof {
            assert(entries_view(mt_entries@) == self.mt());
            assert(entries_view(mt_f@) == crate::model::prefix_filter(self.mt(), p));
            crate::model::lemma_prefix_filter_sorted(self.mt(), p);
        }
        let merged = merge_runs(&mt_f, &acc);
        let ghost mv = entries_view(merged@);
        proof {
            assert(mv == self.prefix_overlay(p));
        }
        let mn = merged.len();
        let mut out: Vec<String> = Vec::new();
        let mut q: usize = 0;
        proof {
            assert(mv.take(0) =~= Seq::<EntryModel>::empty());
            assert(out@.map_values(|v: String| v@) =~= crate::model::drop_tombstones(
                mv.take(0),
            ).map_values(|e: EntryModel| e.1->0));
        }
        while q < mn
            invariant
                mn == merged@.len(),
                mv == entries_view(merged@),
                0 <= q <= mn,
                out@.map_values(|v: String| v@) == crate::model::drop_tombstones(
                    mv.take(q as int),
                ).map_values(|e: EntryModel| e.1->0),
            decreases mn - q,
        {
            let ghost out0 = out@;
            proof {
                assert(mv[q as int] == entry_view(merged@[q as int]));
                assert(mv.take((q + 1) as int) =~= mv.take(q as int).push(mv[q as int]));
                crate::model::lemma_drop_tombstones_snoc(mv.take(q as int), mv[q as int]);
            }
            match &merged[q].1 {
                Some(v) => {
                    let v2 = clone_string(v);
                    let ghost v2v = v2@;
                    proof {
                        assert(v2v == mv[q as int].1->0);
                    }
                    out.push(v2);
                    proof {
                        assert(out@.map_values(|v3: String| v3@) =~= crate::model::drop_tombstones(
                            mv.take((q + 1) as int),
                        ).map_values(|e: EntryModel| e.1->0)) by {
                            let lhs = out@.map_values(|v3: String| v3@);
                            let rhs = crate::model::drop_tombstones(
                                mv.take((q + 1) as int),
                            ).map_values(|e: EntryModel| e.1->0);
                            let dq = crate::model::drop_tombstones(mv.take(q as int));
                            assert(crate::model::drop_tombstones(mv.take((q + 1) as int))
                                == dq.push(mv[q as int]));
                            assert(out0.map_values(|v3: String| v3@).len() == out0.len());
                            assert(dq.map_values(|e: EntryModel| e.1->0).len() == dq.len());
                            assert(out0.len() == dq.len());
                            assert(out@.len() == out0.len() + 1);
                            assert(lhs.len() == out@.len());
                            assert(rhs.len() == dq.len() + 1);
                            assert forall|w: int| 0 <= w < lhs.len() implies lhs[w] == rhs[w] by {
                                assert(rhs[w] == dq.push(mv[q as int])[w].1->0);
                                assert(out0.map_values(|v3: String| v3@) == dq.map_values(
                                    |e: EntryModel| e.1->0,
                                ));
                                assert(lhs[w] == out@[w]@);
                                if w < out0.len() {
                                    assert(out@[w] == out0[w]);
                                    assert(out0.map_values(|v3: String| v3@)[w] == out0[w]@);
                                } else {
                                    assert(out@[w]@ == v2v);
                                    assert(rhs[w] == dq.push(mv[q as int])[w].1->0);
                                    assert(dq.push(mv[q as int])[w] == mv[q as int]);
                                }
                            }
                        }
                    }
                },
                None => {},
            }
            q = q + 1;
        }
        proof {
            assert(mv.take(mn as int) =~= mv);
        }
        out
    }
}


impl Database {
    /// What one flush does to the engine, as a relation on states.
    pub open spec fn flush_transition(pre: Database, post: Database) -> bool {
        &&& post.mt().len() == 0
        &&& post.tables_model() == (if pre.mt().len() == 0 {
            pre.tables_model()
        } else {
            seq![pre.mt()] + pre.tables_model()
        })
        &&& (pre.mt().len() == 0 ==> post == pre)
        &&& forall|k: Seq<char>| #[trigger] post.spec_get(k) == pre.spec_get(k)
    }

    /// Flushing is idempotent: a second flush changes nothing, so two
    /// flushes in a row read exactly as one.
    pub proof fn lemma_flush_idempotent(a: Database, b: Database, c: Database)
        requires
            Database::flush_transition(a, b),
            Database::flush_transition(b, c),
        ensures
            c == b,
            forall|k: Seq<char>| #[trigger] c.spec_get(k) == a.spec_get(k),
    {
    }

    /// A well-formed engine's directory is one that recovery accepts.
    #[verifier::rlimit(100)]
    #[verifier::spinoff_prover]
    pub proof fn lemma_persisted_loadable(self)
        requires
            self.wf(),
            self.spec_next_gen() < u64::MAX - 1,
        ensures
            loadable(self.persisted().files),
    {
        let fv = self.persisted().files;
        assert(fv.len() == self.tables@.len());
        assert forall|j: int| 0 <= j < fv.len() implies is_table_name((#[trigger] fv[j]).0) by {
            let t = self.tables@[j];
            assert(fv[j] == (t.name@, t.reader.file()));
            assert(fv[j].0 == sst_name_chars(t.gen as nat, t.compacted));
        }
        assert forall|j: int| 0 <= j < fv.len() implies parse_table((#[trigger] fv[j]).1) is Some by {
            let t = self.tables@[j];
            assert(fv[j] == (t.name@, t.reader.file()));
            t.reader.lemma_wf_parse();
        }
        assert(!dup_gen(fv)) by {
            if dup_gen(fv) {
                let (j1, j2, g, c1, c2) = choose|j1: int, j2: int, g: u64, c1: bool, c2: bool|
                    #![trigger fv[j1], fv[j2], sst_name_chars(g as nat, c1), sst_name_chars(g as nat, c2)]
                    0 <= j1 < fv.len() && 0 <= j2 < fv.len() && j1 != j2 && fv[j1].0
                        == sst_name_chars(g as nat, c1) && fv[j2].0 == sst_name_chars(g as nat, c2);
                let t1 = self.tables@[j1];
                let t2 = self.tables@[j2];
                assert(fv[j1] == (t1.name@, t1.reader.file()));
                assert(fv[j2] == (t2.name@, t2.reader.file()));
                crate::names::lemma_name_injective(t1.gen as nat, t1.compacted, g as nat, c1);
                crate::names::lemma_name_injective(t2.gen as nat, t2.compacted, g as nat, c2);
                assert(t1.gen == g && t2.gen == g);
                if j1 < j2 {
                    assert(self.tables@[j1].gen > self.tables@[j2].gen);
                } else {
                    assert(self.tables@[j2].gen > self.tables@[j1].gen);
                }
            }
        }
        assert forall|j: int, g: u64, c: bool|
            #![trigger fv[j], sst_name_chars(g as nat, c)]
            0 <= j < fv.len() && fv[j].0 == sst_name_chars(g as nat, c) implies g
            < 0xFFFF_FFFF_FFFF_FFFEu64 by {
            let t = self.tables@[j];
            assert(fv[j] == (t.name@, t.reader.file()));
            crate::names::lemma_name_injective(t.gen as nat, t.compacted, g as nat, c);
            assert(t.gen < self.next_gen);
        }
    }

    /// Durability: an engine recovered from this engine's persisted
    /// state holds the same memtable, the same tables in the same
    /// order, and answers every read identically.
    #[verifier::rlimit(100)]
    #[verifier::spinoff_prover]
    pub proof fn lemma_durability(self, db2: Database)
        requires
            self.wf(),
            recovered(db2, self.persisted().wal, self.persisted().files),
        ensures
            db2.mt() == self.mt(),
            db2.tables_model() == self.tables_model(),
            forall|k: Seq<char>| #[trigger] db2.spec_get(k) == self.spec_get(k),
    {
        let fv = self.persisted().files;
        // the log replays to the same memtable
        self.wal.lemma_wf_image();
        crate::codec::lemma_parse_enc_wal(self.wal.ops(), Seq::<u8>::empty());
        assert(enc_wal(self.wal.ops()) + Seq::<u8>::empty() =~= enc_wal(self.wal.ops()));
        assert(parse_wal(Seq::<u8>::empty()) =~= Seq::<EntryModel>::empty());
        assert(self.wal.ops() + Seq::<EntryModel>::empty() =~= self.wal.ops());
        assert(parse_wal(self.persisted().wal) == self.wal.ops());
        assert(db2.mt() == self.mt());
        self.lemma_durability_tables(db2);
        assert forall|k: Seq<char>| #[trigger] db2.spec_get(k) == self.spec_get(k) by {}
    }

    /// The sealed tables recover one for one, in order.
    #[verifier::rlimit(100)]
    #[verifier::spinoff_prover]
    proof fn lemma_durability_tables(self, db2: Database)
        requires
            self.wf(),
            recovered(db2, self.persisted().wal, self.persisted().files),
        ensures
            db2.tables_model() == self.tables_model(),
    {
        let fv = self.persisted().files;
        let a = self.table_infos();
        let b = db2.table_infos();
        assert(a.len() == self.tables@.len());
        assert(fv.len() == a.len());
        assert forall|j: int| 0 <= j < a.len() implies (#[trigger] fv[j]) == ((#[trigger] a[j]).name,
        a[j].file) && a[j].name == sst_name_chars(a[j].gen as nat, a[j].compacted) by {
            let t = self.tables@[j];
            assert(a[j] == TableInfo {
                gen: t.gen,
                compacted: t.compacted,
                name: t.name@,
                file: t.reader.file(),
                entries: t.reader.model(),
            });
        }
        assert forall|w: int| 0 <= w < b.len() implies (#[trigger] b[w]).name == sst_name_chars(
            b[w].gen as nat,
            b[w].compacted,
        ) by {
            let t = db2.tables@[w];
            assert(b[w] == TableInfo {
                gen: t.gen,
                compacted: t.compacted,
                name: t.name@,
                file: t.reader.file(),
                entries: t.reader.model(),
            });
        }
        let ga = Seq::new(a.len(), |i: int| a[i].gen);
        let gb = Seq::new(b.len(), |i: int| b[i].gen);
        assert forall|i: int| 0 <= i < ga.len() implies seq_has(gb, #[trigger] ga[i]) by {
            assert(fv[i].0 == sst_name_chars(a[i].gen as nat, a[i].compacted));
            let w = choose|w: int|
                {
                    &&& 0 <= w < b.len()
                    &&& (#[trigger] b[w]).gen == a[i].gen
                    &&& b[w].compacted == a[i].compacted
                    &&& b[w].name == fv[i].0
                    &&& b[w].file == fv[i].1
                };
            assert(gb[w] == ga[i]);
        }
        assert forall|w: int| 0 <= w < gb.len() implies seq_has(ga, #[trigger] gb[w]) by {
            let j = choose|j: int|
                0 <= j < fv.len() && (#[trigger] b[w]).name == fv[j].0 && b[w].file == fv[j].1;
            assert(b[w].name == sst_name_chars(a[j].gen as nat, a[j].compacted));
            crate::names::lemma_name_injective(
                b[w].gen as nat,
                b[w].compacted,
                a[j].gen as nat,
                a[j].compacted,
            );
            assert(ga[j] == gb[w]);
        }
        assert forall|i: int, j: int| 0 <= i < j < ga.len() implies #[trigger] ga[i]
            > #[trigger] ga[j] by {
            assert(self.tables@[i].gen > self.tables@[j].gen);
            assert(a[i].gen == self.tables@[i].gen);
            assert(a[j].gen == self.tables@[j].gen);
        }
        assert forall|i: int, j: int| 0 <= i < j < gb.len() implies #[trigger] gb[i]
            > #[trigger] gb[j] by {
            assert(db2.tables@[i].gen > db2.tables@[j].gen);
            assert(b[i].gen == db2.tables@[i].gen);
            assert(b[j].gen == db2.tables@[j].gen);
        }
        lemma_desc_eq(ga, gb);
        assert(a.len() == b.len());
        assert forall|idx: int| 0 <= idx < a.len() implies #[trigger] b[idx] == a[idx] by {
            assert(fv[idx].0 == sst_name_chars(a[idx].gen as nat, a[idx].compacted));
            let w = choose|w: int|
                {
                    &&& 0 <= w < b.len()
                    &&& (#[trigger] b[w]).gen == a[idx].gen
                    &&& b[w].compacted == a[idx].compacted
                    &&& b[w].name == fv[idx].0
                    &&& b[w].file == fv[idx].1
                };
            assert(gb[w] == a[idx].gen);
            assert(gb[idx] == ga[idx]);
            assert(gb[idx] == a[idx].gen);
            if w != idx {
                if w < idx {
                    assert(gb[w] > gb[idx]);
                } else {
                    assert(gb[idx] > gb[w]);
                }
            }
            assert(w == idx);
            // the file image fixes the decoded entries
            let t1 = self.tables@[idx];
            let t2 = db2.tables@[idx];
            t1.reader.lemma_wf_parse();
            t2.reader.lemma_wf_parse();
            assert(b[idx].entries == a[idx].entries);
        }
        assert(db2.tables_model() =~= self.tables_model()) by {
            assert forall|idx: int|
                0 <= idx < self.tables@.len() implies db2.tables_model()[idx]
                == self.tables_model()[idx] by {
                assert(a[idx].entries == self.tables@[idx].reader.model());
                assert(b[idx].entries == db2.tables@[idx].reader.model());
                assert(b[idx] == a[idx]);
            }
        }
    }
}

/// Membership of a value in a sequence.
spec fn seq_has(s: Seq<u64>, v: u64) -> bool {
    exists|w: int| 0 <= w < s.len() && #[trigger] s[w] == v
}

/// Two strictly descending sequences with the same members are equal.
#[verifier::rlimit(100)]
proof fn lemma_desc_eq(x: Seq<u64>, y: Seq<u64>)
    requires
        forall|i: int, j: int| 0 <= i < j < x.len() ==> #[trigger] x[i] > #[trigger] x[j],
        forall|i: int, j: int| 0 <= i < j < y.len() ==> #[trigger] y[i] > #[trigger] y[j],
        forall|i: int| 0 <= i < x.len() ==> seq_has(y, #[trigger] x[i]),
        forall|w: int| 0 <= w < y.len() ==> seq_has(x, #[trigger] y[w]),
    ensures
        x == y,
    decreases x.len(),
{
    if x.len() == 0 {
        if y.len() > 0 {
            assert(seq_has(x, y[0]));
            let i = choose|i: int| 0 <= i < x.len() && #[trigger] x[i] == y[0];
            assert(false);
        }
        assert(x =~= y);
    } else {
        assert(seq_has(y, x[0]));
        let w0 = choose|w: int| 0 <= w < y.len() && #[trigger] y[w] == x[0];
        assert(y.len() > 0);
        assert(y[0] >= y[w0]);
        assert(seq_has(x, y[0]));
        let i0 = choose|i: int| 0 <= i < x.len() && #[trigger] x[i] == y[0];
        assert(x[0] >= x[i0]);
        assert(x[0] == y[0]);
        let xt = x.drop_first();
        let yt = y.drop_first();
        assert forall|i: int| 0 <= i < xt.len() implies seq_has(yt, #[trigger] xt[i]) by {
            assert(xt[i] == x[i + 1]);
            assert(x[0] > x[i + 1]);
            assert(seq_has(y, x[i + 1]));
            let w = choose|w: int| 0 <= w < y.len() && #[trigger] y[w] == x[i + 1];
            assert(w != 0);
            assert(yt[w - 1] == y[w]);
        }
        assert forall|w: int| 0 <= w < yt.len() implies seq_has(xt, #[trigger] yt[w]) by {
            assert(yt[w] == y[w + 1]);
            assert(y[0] > y[w + 1]);
            assert(seq_has(x, y[w + 1]));
            let i = choose|i: int| 0 <= i < x.len() && #[trigger] x[i] == y[w + 1];
            assert(i != 0);
            assert(xt[i - 1] == x[i]);
        }
        assert(forall|i: int, j: int| 0 <= i < j < xt.len() ==> #[trigger] xt[i] > #[trigger] xt[j]);
        assert(forall|i: int, j: int| 0 <= i < j < yt.len() ==> #[trigger] yt[i] > #[trigger] yt[j]);
        lemma_desc_eq(xt, yt);
        assert(x =~= y) by {
            assert forall|i: int| 0 <= i < x.len() implies x[i] == y[i] by {
                if i > 0 {
                    assert(xt[i - 1] == x[i]);
                    assert(yt[i - 1] == y[i]);
                }
            }
        }
    }
}

} // verus!






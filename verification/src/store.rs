use vstd::prelude::*;
use crate::codec::Command;
use crate::codec::CommandView;
use crate::codec::command_wf;
use crate::codec::decode_command;
use crate::codec::encode_command;
use crate::codec::encoded;
use crate::codec::lemma_decode_encoded;
use crate::codec::lemma_decode_gives_encoded;
use crate::codec::lemma_stream_append;
use crate::codec::records_from;
use crate::codec::stream_records;
use crate::error::KvsError;
use crate::index::IndexEntry;
use crate::index::index_at;
use crate::index::index_contains;
use crate::index::index_find;
use crate::index::keys_distinct;
use crate::index::kv_map;
use crate::index::len_map;
use crate::index::lemma_index_unique;
use crate::index::lemma_maps_congruent;
use crate::index::lemma_maps_push;
use crate::index::lemma_maps_remove;
use crate::index::lemma_maps_update;
use crate::replay::ReplayState;
use crate::replay::apply_record;
use crate::replay::apply_records;
use crate::replay::lemma_apply_records_snoc;

verus! {

/// When the dead-byte count passes this many bytes, the next `set`
/// triggers a compaction.
pub const COMPACTION_THRESHOLD: u64 = 128;

/// One log file of the data directory: its generation number and its
/// bytes.
pub struct LogFile {
    pub gen: u64,
    pub data: Vec<u8>,
}

/// The generations are strictly ascending, so each occurs once and the
/// last is the greatest.
pub open spec fn gens_ascending(files: Seq<LogFile>) -> bool {
    forall|i: int, j: int| 0 <= i < j < files.len() ==> files[i].gen < files[j].gen
}

/// Every file is a clean concatenation of record encodings.
pub open spec fn files_wf(files: Seq<LogFile>) -> bool {
    forall|i: int| 0 <= i < files.len() ==> stream_records(#[trigger] files[i].data@) is Some
}

/// The state that replaying the files in order builds, oldest file first,
/// records of each file in write order.
pub open spec fn replay_files(files: Seq<LogFile>) -> ReplayState
    decreases files.len(),
{
    if files.len() == 0 {
        ReplayState::empty()
    } else {
        let prev = replay_files(files.drop_last());
        match stream_records(files.last().data@) {
            Some(rs) => apply_records(prev, rs),
            None => prev,
        }
    }
}

/// The entry's location lies within the file `f` and holds the encoded
/// `Set` record of the entry's key and value.
pub open spec fn entry_in_file(e: IndexEntry, f: LogFile) -> bool {
    &&& e.gen == f.gen
    &&& e.pos + e.len <= f.data@.len()
    &&& f.data@.subrange(e.pos as int, e.pos + e.len) == encoded(
        CommandView::Put { key: e.key@, value: e.value@ },
    )
    &&& command_wf((CommandView::Put { key: e.key@, value: e.value@ }))
}

/// The entry points into one of the given files.
pub open spec fn entry_valid(e: IndexEntry, files: Seq<LogFile>) -> bool {
    exists|i: int| 0 <= i < files.len() && entry_in_file(e, #[trigger] files[i])
}

/// The persistent key-value store: the modelled bytes of each live log
/// file, the in-memory key index, the current (highest, written-to)
/// generation, and the count of dead log bytes that schedules compaction.
pub struct KvStore {
    files: Vec<LogFile>,
    index: Vec<IndexEntry>,
    current_gen: u64,
    uncompacted: u64,
}

impl KvStore {
    /// The log files, oldest generation first.
    pub closed spec fn files_seq(self) -> Seq<LogFile> {
        self.files@
    }

    /// The current generation: the one the writer appends to.
    pub closed spec fn current(self) -> u64 {
        self.current_gen
    }

    /// The dead-byte count.
    pub closed spec fn dead_bytes(self) -> u64 {
        self.uncompacted
    }

    /// The key-to-value map the store answers `get` from.
    pub closed spec fn kv(self) -> Map<Seq<char>, Seq<char>> {
        kv_map(self.index@)
    }

    /// The byte length of each live key's record.
    pub closed spec fn lens(self) -> Map<Seq<char>, u64> {
        len_map(self.index@)
    }

    /// The store's state as a replay state.
    pub open spec fn state(self) -> ReplayState {
        ReplayState { kv: self.kv(), lens: self.lens(), dead: self.dead_bytes() }
    }

    /// Well-formedness: the invariants that hold between public
    /// operations.  There is at least one file; generations ascend and
    /// the writer's is the last; every file decodes; index keys are
    /// distinct; every index entry points at the encoded `Set` record of
    /// its key and value inside a live file; and the index describes
    /// exactly the maps that replaying the files yields, so a re-opened
    /// store answers as this one does.
    pub closed spec fn wf(self) -> bool {
        &&& self.files@.len() > 0
        &&& gens_ascending(self.files@)
        &&& self.files@.last().gen == self.current_gen
        &&& files_wf(self.files@)
        &&& keys_distinct(self.index@)
        &&& forall|i: int|
            0 <= i < self.index@.len() ==> entry_valid(#[trigger] self.index@[i], self.files@)
        &&& replay_files(self.files@).kv == kv_map(self.index@)
        &&& replay_files(self.files@).lens == len_map(self.index@)
    }
}

/// Law (durability): what a well-formed store answers is exactly what
/// replaying its files yields, so closing the store and re-opening the
/// same directory yields a store with the same map.
pub proof fn lemma_reopen_matches(s: KvStore)
    requires
        s.wf(),
    ensures
        replay_files(s.files_seq()).kv == s.kv(),
        replay_files(s.files_seq()).lens == s.lens(),
        files_wf(s.files_seq()),
        gens_ascending(s.files_seq()),
        s.files_seq().len() > 0,
        s.files_seq().last().gen == s.current(),
{
}

/// Law (monotonicity): the current generation bounds every live
/// generation, so the generations a compaction creates, being greater
/// than the current one, are greater than every generation ever live.
pub proof fn lemma_current_gen_is_max(s: KvStore)
    requires
        s.wf(),
    ensures
        forall|i: int| 0 <= i < s.files_seq().len() ==> (#[trigger] s.files_seq()[i].gen)
            <= s.current(),
{
    let files = s.files_seq();
    assert forall|i: int| 0 <= i < files.len() implies (#[trigger] files[i].gen)
        <= s.current() by {
        if i < files.len() - 1 {
            assert(files[i].gen < files[files.len() - 1].gen);
        }
    }
}

/// Two files with one generation are one file.
proof fn lemma_gen_unique(files: Seq<LogFile>, i: int, j: int)
    requires
        gens_ascending(files),
        0 <= i < files.len(),
        0 <= j < files.len(),
        files[i].gen == files[j].gen,
    ensures
        i == j,
{
    if i < j {
        assert(files[i].gen < files[j].gen);
    }
    if j < i {
        assert(files[j].gen < files[i].gen);
    }
}

/// Extending a sequence does not disturb its prefix's subranges.
proof fn lemma_subrange_of_extend(d: Seq<u8>, e: Seq<u8>, a: int, b: int)
    requires
        0 <= a <= b <= d.len(),
    ensures
        (d + e).subrange(a, b) == d.subrange(a, b),
{
    assert((d + e).subrange(a, b) =~= d.subrange(a, b));
}

/// The position of the file of generation `gen`, when it is live.
fn find_file(files: &Vec<LogFile>, gen: u64) -> (r: Option<usize>)
    ensures
        match r {
            Some(i) => i < files@.len() && files@[i as int].gen == gen,
            None => forall|j: int| 0 <= j < files@.len() ==> (#[trigger] files@[j].gen) != gen,
        },
{
    let mut i: usize = 0;
    while i < files.len()
        invariant
            i <= files@.len(),
            forall|j: int| 0 <= j < i ==> (#[trigger] files@[j].gen) != gen,
        decreases files@.len() - i,
    {
        if files[i].gen == gen {
            return Some(i);
        }
        i = i + 1;
    }
    None
}

/// Creates the empty log file of a fresh generation and hands it to the
/// store's file list, the writer's place at its end.
fn new_log_file(files: &mut Vec<LogFile>, gen: u64)
    ensures
        final(files)@.len() == old(files)@.len() + 1,
        final(files)@.drop_last() == old(files)@,
        final(files)@.last().gen == gen,
        final(files)@.last().data@ == Seq::<u8>::empty(),
{
    let f = LogFile { gen, data: Vec::new() };
    files.push(f);
    proof {
        assert(files@.drop_last() =~= old(files)@);
    }
}

/// Replays one log file into the index: each decoded `Set` upserts the
/// key with the record's location, each `Remove` deletes the key; the
/// running dead-byte count grows by every record that a later one
/// retires, and by each `Remove` record itself.  Fails with `CorruptLog`
/// exactly when the file is not a clean concatenation of records.
fn load(gen: u64, data: &Vec<u8>, index: &mut Vec<IndexEntry>, uncompacted: u64) -> (r: Result<
    u64,
    KvsError,
>)
    requires
        keys_distinct(old(index)@),
    ensures
        match r {
            Ok(unc) => ({
                let st0 = ReplayState {
                    kv: kv_map(old(index)@),
                    lens: len_map(old(index)@),
                    dead: uncompacted,
                };
                &&& stream_records(data@) is Some
                &&& ({
                    let st1 = apply_records(st0, stream_records(data@).unwrap());
                    &&& kv_map(final(index)@) == st1.kv
                    &&& len_map(final(index)@) == st1.lens
                    &&& unc == st1.dead
                })
                &&& keys_distinct(final(index)@)
                &&& forall|j: int|
                    0 <= j < final(index)@.len() ==> entry_in_file(
                        #[trigger] final(index)@[j],
                        LogFile { gen, data: *data },
                    ) || old(index)@.contains(final(index)@[j])
            }),
            Err(e) => e == KvsError::CorruptLog && stream_records(data@) is None,
        },
{
    let ghost st0 = ReplayState {
        kv: kv_map(index@),
        lens: len_map(index@),
        dead: uncompacted,
    };
    let ghost orig_index = index@;
    let mut pos: usize = 0;
    let mut unc: u64 = uncompacted;
    let ghost mut done: Seq<CommandView> = Seq::empty();
    let total = data.len();
    proof {
        assert(apply_records(st0, done) == st0);
    }
    while pos < total
        invariant
            total == data@.len(),
            pos <= total,
            records_from(data@, 0) == (match records_from(data@, pos as int) {
                Some(rest) => Some(done + rest),
                None => None::<Seq<CommandView>>,
            }),
            kv_map(index@) == apply_records(st0, done).kv,
            len_map(index@) == apply_records(st0, done).lens,
            unc == apply_records(st0, done).dead,
            st0 == (ReplayState {
                kv: kv_map(orig_index),
                lens: len_map(orig_index),
                dead: uncompacted,
            }),
            keys_distinct(index@),
            forall|j: int|
                0 <= j < index@.len() ==> entry_in_file(
                    #[trigger] index@[j],
                    LogFile { gen, data: *data },
                ) || orig_index.contains(index@[j]),
        decreases total - pos,
    {
        let (cmd, end) = match decode_command(data, pos) {
            Ok(p) => p,
            Err(_) => {
                proof {
                    assert(records_from(data@, pos as int) is None);
                }
                return Err(KvsError::CorruptLog);
            },
        };
        proof {
            lemma_decode_gives_encoded(data@, pos as int);
        }
        let len = (end - pos) as u64;
        let ghost st_before = apply_records(st0, done);
        let ghost cv = cmd@;
        match cmd {
            Command::Put { key, value } => {
                let entry = IndexEntry {
                    key,
                    gen,
                    pos: pos as u64,
                    len,
                    value: Ghost(value@),
                };
                proof {
                    assert(entry_in_file(entry, LogFile { gen, data: *data }));
                }
                match index_find(index, &entry.key) {
                    Some(i) => {
                        let stale = index[i].len;
                        proof {
                            lemma_index_unique(index@, i as int);
                            lemma_maps_update(index@, i as int, entry);
                        }
                        index[i] = entry;
                        unc = unc.saturating_add(stale);
                    },
                    None => {
                        proof {
                            lemma_maps_push(index@, entry);
                        }
                        index.push(entry);
                    },
                }
            },
            Command::Remove { key } => {
                match index_find(index, &key) {
                    Some(i) => {
                        let stale = index[i].len;
                        proof {
                            lemma_index_unique(index@, i as int);
                            lemma_maps_remove(index@, i as int);
                        }
                        index.remove(i);
                        unc = unc.saturating_add(stale);
                    },
                    None => {
                    },
                }
                unc = unc.saturating_add(len);
            },
        }
        proof {
            lemma_apply_records_snoc(st0, done, cv);
            done = done + seq![cv];
            assert(kv_map(index@) == apply_records(st0, done).kv);
            assert(len_map(index@) == apply_records(st0, done).lens);
            assert(unc == apply_records(st0, done).dead);
            assert(records_from(data@, 0) == (match records_from(data@, end as int) {
                Some(rest) => Some(done + rest),
                None => None::<Seq<CommandView>>,
            })) by {
                if records_from(data@, end as int) is Some {
                    let rest = records_from(data@, end as int).unwrap();
                    assert(records_from(data@, pos as int) == Some(seq![cv] + rest));
                    assert((done.drop_last() + (seq![cv] + rest)) =~= (done + rest));
                    assert(done.drop_last() + (seq![cv] + rest) == done + rest);
                }
            }
        }
        pos = end;
    }
    proof {
        assert(records_from(data@, pos as int) == Some(Seq::<CommandView>::empty()));
        assert(done + Seq::<CommandView>::empty() =~= done);
        assert(stream_records(data@) == Some(done));
    }
    Ok(unc)
}

impl KvStore {
    /// Opens a store over the given log files, oldest generation first,
    /// as read from the data directory.  Replays every file in order to
    /// rebuild the index, then starts a fresh, empty generation one past
    /// the highest found - the first generation of an empty directory is
    /// 1 - and makes it current.  Fails with `CorruptLog` exactly when
    /// some file does not decode; an empty file list yields an empty
    /// store.
    pub fn open(files: Vec<LogFile>) -> (r: Result<KvStore, KvsError>)
        requires
            gens_ascending(files@),
            files@.len() > 0 ==> files@.last().gen < u64::MAX,
        ensures
            match r {
                Ok(s) => {
                    &&& files_wf(files@)
                    &&& s.wf()
                    &&& s.kv() == replay_files(files@).kv
                    &&& s.lens() == replay_files(files@).lens
                    &&& s.dead_bytes() == replay_files(files@).dead
                    &&& s.current() == if files@.len() == 0 {
                        1u64
                    } else {
                        (files@.last().gen + 1) as u64
                    }
                    &&& s.files_seq().len() == files@.len() + 1
                    &&& forall|j: int| 0 <= j < files@.len() ==> s.files_seq()[j] == files@[j]
                    &&& s.files_seq().last().gen == s.current()
                    &&& s.files_seq().last().data@ == Seq::<u8>::empty()
                },
                Err(e) => e == KvsError::CorruptLog && !files_wf(files@),
            },
    {
        let mut index: Vec<IndexEntry> = Vec::new();
        let mut uncompacted: u64 = 0;
        let mut i: usize = 0;
        let n = files.len();
        proof {
            assert(files@.take(0) =~= Seq::<LogFile>::empty());
        }
        while i < n
            invariant
                n == files@.len(),
                i <= n,
                gens_ascending(files@),
                files@.len() > 0 ==> files@.last().gen < u64::MAX,
                files_wf(files@.take(i as int)),
                keys_distinct(index@),
                kv_map(index@) == replay_files(files@.take(i as int)).kv,
                len_map(index@) == replay_files(files@.take(i as int)).lens,
                uncompacted == replay_files(files@.take(i as int)).dead,
                forall|e: IndexEntry| #[trigger]
                    index@.contains(e) ==> exists|j: int|
                        0 <= j < i && entry_in_file(e, #[trigger] files@[j]),
            decreases n - i,
        {
            let ghost prev_index = index@;
            let r = load(files[i].gen, &files[i].data, &mut index, uncompacted);
            match r {
                Ok(unc) => {
                    uncompacted = unc;
                },
                Err(_) => {
                    proof {
                        assert(stream_records(files@[i as int].data@) is None);
                        assert(!files_wf(files@));
                    }
                    return Err(KvsError::CorruptLog);
                },
            }
            proof {
                let pre = files@.take(i as int);
                let now = files@.take(i + 1);
                assert(now.drop_last() =~= pre);
                assert(now.last() == files@[i as int]);
                assert(files_wf(now)) by {
                    assert(forall|j: int|
                        0 <= j < now.len() ==> now[j] == #[trigger] files@[j]);
                }
                assert(replay_files(now) == apply_records(
                    replay_files(pre),
                    stream_records(files@[i as int].data@).unwrap(),
                ));
                assert forall|e: IndexEntry| #[trigger] index@.contains(e) implies exists|j: int|
                    0 <= j < i + 1 && entry_in_file(e, #[trigger] files@[j]) by {
                    let ji = choose|ji: int| 0 <= ji < index@.len() && index@[ji] == e;
                    if entry_in_file(e, LogFile { gen: files@[i as int].gen, data: files[i as int].data }) {
                        assert(files@[i as int] == LogFile {
                            gen: files@[i as int].gen,
                            data: files[i as int].data,
                        });
                        assert(entry_in_file(e, files@[i as int]));
                    } else {
                        assert(prev_index.contains(e));
                        let j = choose|j: int| 0 <= j < i && entry_in_file(e, #[trigger] files@[j]);
                        assert(entry_in_file(e, files@[j]));
                    }
                }
            }
            i = i + 1;
        }
        proof {
            assert(files@.take(n as int) =~= files@);
        }
        let current_gen: u64 = if n == 0 {
            1
        } else {
            files[n - 1].gen + 1
        };
        let mut files = files;
        proof {
            if n > 0 {
                lemma_files_max(files@);
            }
        }
        let ghost before_push = files@;
        new_log_file(&mut files, current_gen);
        let s = KvStore { files, index, current_gen, uncompacted };
        proof {
            assert(s.files@.drop_last() =~= before_push);
            assert(stream_records(Seq::<u8>::empty()) == Some(Seq::<CommandView>::empty()));
            assert(replay_files(s.files@) == replay_files(before_push));
            assert forall|p: int, q: int| 0 <= p < q < s.files@.len() implies s.files@[p].gen
                < s.files@[q].gen by {
                if q < s.files@.len() - 1 {
                    assert(before_push[p].gen < before_push[q].gen);
                } else if p < s.files@.len() - 1 {
                    assert(before_push[p].gen <= before_push[before_push.len() - 1].gen);
                }
            }
            assert forall|ii: int| 0 <= ii < s.index@.len() implies entry_valid(
                #[trigger] s.index@[ii],
                s.files@,
            ) by {
                assert(index@.contains(index@[ii]));
                let j = choose|j: int| 0 <= j < n && entry_in_file(index@[ii], #[trigger] before_push[j]);
                assert(s.files@[j] == before_push[j]);
                assert(entry_in_file(s.index@[ii], s.files@[j]));
            }
            assert forall|j: int| 0 <= j < s.files@.len() implies stream_records(
                #[trigger] s.files@[j].data@,
            ) is Some by {
                if j < s.files@.len() - 1 {
                    assert(before_push[j] == s.files@[j]);
                    assert(stream_records(before_push[j].data@) is Some);
                } else {
                    assert(s.files@[j].data@ == Seq::<u8>::empty());
                }
            }
            assert(s.wf());
        }
        Ok(s)
    }

    /// The value most recently set for `key`, or `None` when the key was
    /// never set or was removed since.  Reads the record the index points
    /// at; a record there that is not a `Set` would be an integrity
    /// error, which a well-formed store rules out.
    pub fn get(&self, key: String) -> (r: Result<Option<String>, KvsError>)
        requires
            self.wf(),
        ensures
            match r {
                Ok(opt) => match opt {
                    Some(v) => self.kv().contains_key(key@) && v@ == self.kv()[key@],
                    None => !self.kv().contains_key(key@),
                },
                Err(_) => false,
            },
    {
        let found = index_find(&self.index, &key);
        match found {
            None => Ok(None),
            Some(i) => {
                proof {
                    lemma_index_unique(self.index@, i as int);
                }
                let e_gen = self.index[i].gen;
                let e_pos = self.index[i].pos;
                let ghost cv = CommandView::Put {
                    key: self.index@[i as int].key@,
                    value: self.index@[i as int].value@,
                };
                let fi = match find_file(&self.files, e_gen) {
                    Some(fi) => fi,
                    None => {
                        proof {
                            let j = choose|j: int|
                                0 <= j < self.files@.len() && entry_in_file(
                                    self.index@[i as int],
                                    #[trigger] self.files@[j],
                                );
                            assert(self.files@[j].gen == e_gen);
                        }
                        return Err(KvsError::UnexpectedCommandType);
                    },
                };
                proof {
                    let j = choose|j: int|
                        0 <= j < self.files@.len() && entry_in_file(
                            self.index@[i as int],
                            #[trigger] self.files@[j],
                        );
                    lemma_gen_unique(self.files@, fi as int, j);
                    lemma_decode_encoded(self.files@[fi as int].data@, e_pos as int, cv);
                }
                let flen = self.files[fi].data.len();
                let (cmd, _end) = match decode_command(&self.files[fi].data, e_pos as usize) {
                    Ok(p) => p,
                    Err(_) => {
                        return Err(KvsError::CorruptLog);
                    },
                };
                match cmd {
                    Command::Put { value, .. } => Ok(Some(value)),
                    Command::Remove { .. } => {
                        proof {
                            assert(false);
                        }
                        Err(KvsError::UnexpectedCommandType)
                    },
                }
            },
        }
    }
}

/// Appends an encoded record to the current generation's file - the last
/// one - and reports the offset the record starts at.
fn append_record(files: &mut Vec<LogFile>, bytes: &Vec<u8>) -> (start: u64)
    requires
        old(files)@.len() > 0,
    ensures
        final(files)@.len() == old(files)@.len(),
        final(files)@.drop_last() == old(files)@.drop_last(),
        final(files)@.last().gen == old(files)@.last().gen,
        final(files)@.last().data@ == old(files)@.last().data@ + bytes@,
        start == old(files)@.last().data@.len(),
{
    let mut f = match files.pop() {
        Some(f) => f,
        None => {
            proof {
                assert(false);
            }
            return vstd::pervasive::unreached();
        },
    };
    let start = f.data.len() as u64;
    f.data.extend_from_slice(bytes.as_slice());
    files.push(f);
    proof {
        assert(files@.drop_last() =~= old(files)@.drop_last());
    }
    start
}

impl KvStore {
    /// Binds `key` to `value`: appends the `Set` record to the current
    /// file and points the index at it.  A previous record for the key
    /// becomes dead weight and is charged to the dead-byte count; when
    /// that count passes `COMPACTION_THRESHOLD`, a compaction runs and
    /// resets it.
    pub fn set(&mut self, key: String, value: String) -> (r: Result<(), KvsError>)
        requires
            old(self).wf(),
            key@.len() > 0,
            old(self).current() + 2 <= u64::MAX,
        ensures
            r is Ok,
            final(self).wf(),
            ({
                let stepped = apply_record(
                    old(self).state(),
                    (CommandView::Put { key: key@, value: value@ }),
                );
                &&& final(self).kv() == stepped.kv
                &&& final(self).lens() == stepped.lens
                &&& final(self).dead_bytes() == if stepped.dead > COMPACTION_THRESHOLD {
                    0u64
                } else {
                    stepped.dead
                }
                &&& final(self).current() == if stepped.dead > COMPACTION_THRESHOLD {
                    (old(self).current() + 2) as u64
                } else {
                    old(self).current()
                }
            }),
    {
        let ghost cv = CommandView::Put { key: key@, value: value@ };
        let ghost old_files = self.files@;
        let ghost old_last = old_files.last().data@;
        let cmd = Command::set(key, value);
        let bytes = encode_command(&cmd);
        let start = append_record(&mut self.files, &bytes);
        let len = bytes.len() as u64;
        proof {
            assert(stream_records(old_last) is Some);
            lemma_stream_append(old_last, cv);
            let rs = stream_records(old_last).unwrap();
            lemma_apply_records_snoc(replay_files(old_files.drop_last()), rs, cv);
            assert(replay_files(self.files@) == apply_record(replay_files(old_files), cv));
            assert(self.files@.last().data@.subrange(0, old_last.len() as int) =~= old_last);
            lemma_preserve_entries_on_extend(old(self).index@, old_files, self.files@);
        }
        match cmd {
            Command::Put { key, value } => {
                let entry = IndexEntry {
                    key,
                    gen: self.current_gen,
                    pos: start,
                    len,
                    value: Ghost(value@),
                };
                proof {
                    let f = self.files@.last();
                    assert(f.data@.subrange(start as int, start + len) =~= bytes@);
                    assert(entry_in_file(entry, f));
                    assert(entry_valid(entry, self.files@)) by {
                        assert(entry_in_file(entry, self.files@[self.files@.len() - 1]));
                    }
                }
                match index_find(&self.index, &entry.key) {
                    Some(i) => {
                        let stale = self.index[i].len;
                        proof {
                            lemma_index_unique(self.index@, i as int);
                            lemma_maps_update(self.index@, i as int, entry);
                        }
                        self.index[i] = entry;
                        self.uncompacted = self.uncompacted.saturating_add(stale);
                    },
                    None => {
                        proof {
                            lemma_maps_push(self.index@, entry);
                        }
                        self.index.push(entry);
                    },
                }
            },
            Command::Remove { .. } => {
                proof {
                    assert(false);
                }
                return vstd::pervasive::unreached();
            },
        }
        proof {
            assert(self.wf());
        }
        if self.uncompacted > COMPACTION_THRESHOLD {
            match self.compact() {
                Ok(()) => {
                },
                Err(_) => {
                    proof {
                        assert(false);
                    }
                    return vstd::pervasive::unreached();
                },
            }
        }
        Ok(())
    }

    /// Unbinds `key`: appends the `Remove` record to the current file
    /// and deletes the key from the index.  When the key is absent,
    /// fails with `KeyNotFound` and writes nothing.  The dead bytes the
    /// removal leaves behind are not charged here; a later replay of the
    /// directory counts them.
    pub fn remove(&mut self, key: String) -> (r: Result<(), KvsError>)
        requires
            old(self).wf(),
        ensures
            final(self).wf(),
            old(self).kv().contains_key(key@) ==> {
                &&& r is Ok
                &&& final(self).kv() == old(self).kv().remove(key@)
                &&& final(self).lens() == old(self).lens().remove(key@)
                &&& final(self).dead_bytes() == old(self).dead_bytes()
                &&& final(self).current() == old(self).current()
            },
            !old(self).kv().contains_key(key@) ==> r == Err::<(), KvsError>(KvsError::KeyNotFound)
                && *final(self) == *old(self),
    {
        let found = index_find(&self.index, &key);
        match found {
            None => Err(KvsError::KeyNotFound),
            Some(i) => {
                proof {
                    lemma_index_unique(self.index@, i as int);
                }
                let ghost cv = CommandView::Remove { key: key@ };
                let ghost old_files = self.files@;
                let ghost old_last = old_files.last().data@;
                let cmd = Command::remove(key);
                let bytes = encode_command(&cmd);
                let _start = append_record(&mut self.files, &bytes);
                proof {
                    lemma_stream_append(old_last, cv);
                    let rs = stream_records(old_last).unwrap();
                    lemma_apply_records_snoc(replay_files(old_files.drop_last()), rs, cv);
                    assert(replay_files(self.files@) == apply_record(replay_files(old_files), cv));
                    assert(self.files@.last().data@.subrange(0, old_last.len() as int)
                        =~= old_last);
                    lemma_preserve_entries_on_extend(old(self).index@, old_files, self.files@);
                    lemma_maps_remove(self.index@, i as int);
                }
                self.index.remove(i);
                proof {
                    assert(self.wf());
                }
                Ok(())
            },
        }
    }

    /// Copies every live record into a fresh generation, points the
    /// index at the copies, rotates the writer to a second fresh
    /// generation, drops every older file, and zeroes the dead-byte
    /// count.  The two fresh generations exceed every generation that
    /// was live, and the key-to-value map is unchanged.
    pub fn compact(&mut self) -> (r: Result<(), KvsError>)
        requires
            old(self).wf(),
            old(self).current() + 2 <= u64::MAX,
        ensures
            r is Ok,
            final(self).wf(),
            final(self).kv() == old(self).kv(),
            final(self).lens() == old(self).lens(),
            final(self).dead_bytes() == 0,
            final(self).current() == old(self).current() + 2,
            final(self).files_seq().len() == 2,
            final(self).files_seq()[0].gen == old(self).current() + 1,
            final(self).files_seq()[1].gen == old(self).current() + 2,
            final(self).files_seq()[1].data@ == Seq::<u8>::empty(),
    {
        let compaction_gen = self.current_gen + 1;
        let new_gen = self.current_gen + 2;
        let mut new_data: Vec<u8> = Vec::new();
        let mut new_index: Vec<IndexEntry> = Vec::new();
        let ghost mut done: Seq<CommandView> = Seq::empty();
        let n = self.index.len();
        let mut i: usize = 0;
        proof {
            assert(stream_records(new_data@) == Some(done));
            assert(apply_records(ReplayState::empty(), done) == ReplayState::empty());
        }
        while i < n
            invariant
                *self == *old(self),
                self.wf(),
                n == self.index@.len(),
                i <= n,
                compaction_gen == self.current_gen + 1,
                self.current_gen + 2 <= u64::MAX,
                new_index@.len() == i,
                keys_distinct(new_index@),
                forall|j: int|
                    0 <= j < i ==> (#[trigger] new_index@[j]).key@ == self.index@[j].key@
                        && new_index@[j].value@ == self.index@[j].value@ && new_index@[j].len
                        == self.index@[j].len,
                forall|j: int|
                    0 <= j < i ==> entry_in_file(
                        #[trigger] new_index@[j],
                        LogFile { gen: compaction_gen, data: new_data },
                    ),
                stream_records(new_data@) == Some(done),
                done.len() == i,
                forall|j: int|
                    0 <= j < i ==> done[j] == (CommandView::Put {
                        key: self.index@[j].key@,
                        value: self.index@[j].value@,
                    }),
                apply_records(ReplayState::empty(), done).kv == kv_map(new_index@),
                apply_records(ReplayState::empty(), done).lens == len_map(new_index@),
            decreases n - i,
        {
            let e_gen = self.index[i].gen;
            let e_pos = self.index[i].pos;
            let e_len = self.index[i].len;
            let ghost cv = CommandView::Put {
                key: self.index@[i as int].key@,
                value: self.index@[i as int].value@,
            };
            proof {
                assert(entry_valid(self.index@[i as int], self.files@));
            }
            let fi = match find_file(&self.files, e_gen) {
                Some(fi) => fi,
                None => {
                    proof {
                        let j = choose|j: int|
                            0 <= j < self.files@.len() && entry_in_file(
                                self.index@[i as int],
                                #[trigger] self.files@[j],
                            );
                        assert(self.files@[j].gen == e_gen);
                        assert(false);
                    }
                    return vstd::pervasive::unreached();
                },
            };
            proof {
                let j = choose|j: int|
                    0 <= j < self.files@.len() && entry_in_file(
                        self.index@[i as int],
                        #[trigger] self.files@[j],
                    );
                lemma_gen_unique(self.files@, fi as int, j);
            }
            let flen = self.files[fi].data.len();
            let start = e_pos as usize;
            let stop = start + (e_len as usize);
            let ghost old_new_data = new_data@;
            let new_pos = new_data.len() as u64;
            let piece = vstd::slice::slice_subrange(self.files[fi].data.as_slice(), start, stop);
            new_data.extend_from_slice(piece);
            let entry = IndexEntry {
                key: self.index[i].key.clone(),
                gen: compaction_gen,
                pos: new_pos,
                len: e_len,
                value: Ghost(self.index@[i as int].value@),
            };
            proof {
                assert(new_data@ == old_new_data + encoded(cv));
                lemma_stream_append(old_new_data, cv);
                lemma_apply_records_snoc(ReplayState::empty(), done, cv);
                assert(new_data@.subrange(new_pos as int, new_pos + e_len) =~= encoded(cv));
                assert(entry_in_file(entry, LogFile { gen: compaction_gen, data: new_data }));
                assert forall|j: int| 0 <= j < i implies entry_in_file(
                    #[trigger] new_index@[j],
                    LogFile { gen: compaction_gen, data: new_data },
                ) by {
                    lemma_subrange_of_extend(
                        old_new_data,
                        encoded(cv),
                        new_index@[j].pos as int,
                        new_index@[j].pos + new_index@[j].len,
                    );
                }
                assert(!index_contains(new_index@, entry.key@)) by {
                    if index_contains(new_index@, entry.key@) {
                        let j = choose|j: int|
                            0 <= j < new_index@.len() && new_index@[j].key@ == entry.key@;
                        assert(self.index@[j].key@ == self.index@[i as int].key@);
                    }
                }
                lemma_maps_push(new_index@, entry);
                done = done + seq![cv];
            }
            new_index.push(entry);
            i = i + 1;
        }
        proof {
            lemma_maps_congruent(self.index@, new_index@);
        }
        let ghost final_data = new_data@;
        let ghost final_done = done;
        let mut files2: Vec<LogFile> = Vec::new();
        files2.push(LogFile { gen: compaction_gen, data: new_data });
        let ghost after_first = files2@;
        proof {
            assert(after_first.len() == 1);
            assert(after_first[0].gen == compaction_gen);
            assert(after_first[0].data@ == final_data);
        }
        new_log_file(&mut files2, new_gen);
        proof {
            assert(files2@.drop_last() == after_first);
            assert(files2@[0] == after_first[0]);
        }
        self.files = files2;
        self.index = new_index;
        self.current_gen = new_gen;
        self.uncompacted = 0;
        proof {
            assert(self.files@.len() == 2);
            let f1 = self.files@[0];
            assert(f1.gen == compaction_gen && f1.data@ == final_data);
            assert(self.files@.drop_last() =~= seq![f1]);
            assert(stream_records(self.files@.last().data@) == Some(Seq::<CommandView>::empty()));
            assert(seq![f1].drop_last() =~= Seq::<LogFile>::empty());
            assert(replay_files(Seq::<LogFile>::empty()) == ReplayState::empty());
            assert(seq![f1].len() == 1);
            assert(seq![f1].last() == f1);
            assert(stream_records(f1.data@) == Some(final_done));
            assert(replay_files(seq![f1]) == apply_records(ReplayState::empty(), final_done));
            assert(replay_files(self.files@) == replay_files(seq![f1]));
            assert forall|ii: int| 0 <= ii < self.index@.len() implies entry_valid(
                #[trigger] self.index@[ii],
                self.files@,
            ) by {
                assert(entry_in_file(self.index@[ii], self.files@[0]));
            }
            assert(self.wf());
        }
        Ok(())
    }

    /// The current (highest, written-to) generation number.
    pub fn current_gen(&self) -> (g: u64)
        ensures
            g == self.current(),
    {
        self.current_gen
    }

    /// The count of dead log bytes accumulated since the last compaction.
    pub fn uncompacted(&self) -> (n: u64)
        ensures
            n == self.dead_bytes(),
    {
        self.uncompacted
    }

    /// The live log files, oldest generation first: what the data
    /// directory must hold for this store to be re-opened.
    pub fn files(&self) -> (fs: &Vec<LogFile>)
        ensures
            fs@ == self.files_seq(),
    {
        &self.files
    }

    /// Gives the log files up, as for closing the store and keeping the
    /// directory.
    pub fn into_files(self) -> (fs: Vec<LogFile>)
        ensures
            fs@ == self.files_seq(),
    {
        let KvStore { files, .. } = self;
        files
    }

    /// Law (durability), executable form: closing a well-formed store
    /// and opening its directory again yields a store that answers every
    /// `get` as the first one did, under a fresh current generation.
    pub fn reopen(self) -> (r: Result<KvStore, KvsError>)
        requires
            self.wf(),
            self.current() < u64::MAX,
        ensures
            r is Ok,
            ({
                let s = r.unwrap();
                &&& s.wf()
                &&& s.kv() == self.kv()
                &&& s.lens() == self.lens()
                &&& s.current() == self.current() + 1
            }),
    {
        let ghost me = self;
        proof {
            lemma_reopen_matches(me);
        }
        let files = self.into_files();
        match KvStore::open(files) {
            Ok(s) => Ok(s),
            Err(e) => {
                proof {
                    assert(false);
                }
                Err(e)
            },
        }
    }
}

/// Appending bytes to the last file keeps the generations ascending,
/// keeps every file decodable when the grown one still decodes, and
/// keeps every index entry pointing at its record.
proof fn lemma_preserve_entries_on_extend(
    index: Seq<IndexEntry>,
    old_files: Seq<LogFile>,
    new_files: Seq<LogFile>,
)
    requires
        old_files.len() > 0,
        new_files.len() == old_files.len(),
        new_files.drop_last() == old_files.drop_last(),
        new_files.last().gen == old_files.last().gen,
        old_files.last().data@.len() <= new_files.last().data@.len(),
        new_files.last().data@.subrange(0, old_files.last().data@.len() as int)
            == old_files.last().data@,
        gens_ascending(old_files),
        files_wf(old_files),
        stream_records(new_files.last().data@) is Some,
        forall|i: int| 0 <= i < index.len() ==> entry_valid(#[trigger] index[i], old_files),
    ensures
        gens_ascending(new_files),
        files_wf(new_files),
        forall|i: int| 0 <= i < index.len() ==> entry_valid(#[trigger] index[i], new_files),
{
    let m = old_files.len();
    assert forall|p: int, q: int| 0 <= p < q < m implies new_files[p].gen < new_files[q].gen by {
        if q < m - 1 {
            assert(new_files[p] == old_files.drop_last()[p]);
            assert(new_files[q] == old_files.drop_last()[q]);
        } else {
            if p < m - 1 {
                assert(new_files[p] == old_files.drop_last()[p]);
            }
            assert(old_files[p].gen < old_files[q].gen);
        }
    }
    assert forall|p: int| 0 <= p < m implies stream_records(
        #[trigger] new_files[p].data@,
    ) is Some by {
        if p < m - 1 {
            assert(new_files[p] == old_files.drop_last()[p]);
            assert(stream_records(old_files[p].data@) is Some);
        }
    }
    assert forall|i: int| 0 <= i < index.len() implies entry_valid(
        #[trigger] index[i],
        new_files,
    ) by {
        let e = index[i];
        let j = choose|j: int| 0 <= j < old_files.len() && entry_in_file(e, #[trigger] old_files[j]);
        if j < old_files.len() - 1 {
            assert(new_files[j] == old_files.drop_last()[j]);
            assert(entry_in_file(e, new_files[j]));
        } else {
            let od = old_files.last().data@;
            let nd = new_files.last().data@;
            assert(nd.subrange(e.pos as int, e.pos + e.len) =~= od.subrange(
                e.pos as int,
                e.pos + e.len,
            )) by {
                assert forall|t: int| 0 <= t < e.len implies nd[#[trigger] (e.pos + t)] == od[e.pos
                    + t] by {
                    assert(nd.subrange(0, od.len() as int)[e.pos + t] == od[e.pos + t]);
                }
            }
            assert(entry_in_file(e, new_files[new_files.len() - 1]));
        }
    }
}

/// The last generation of an ascending file list bounds them all.
proof fn lemma_files_max(files: Seq<LogFile>)
    requires
        gens_ascending(files),
        files.len() > 0,
    ensures
        forall|i: int| 0 <= i < files.len() ==> (#[trigger] files[i].gen) <= files.last().gen,
{
    assert forall|i: int| 0 <= i < files.len() implies (#[trigger] files[i].gen)
        <= files.last().gen by {
        if i < files.len() - 1 {
            assert(files[i].gen < files[files.len() - 1].gen);
        }
    }
}

} // verus!

//! Recovery: the memtable and the tables rebuilt from the files of the
//! database directory.
use crate::codec::{lemma_read_back, lemma_reads_as_unique, reads_as, records, sized, views};
use crate::errors::StorageEngineError;
use crate::event::{copy_bytes, EventView};
use crate::memtable::MemTable;
use crate::sstable::{sorted_by_tid, SSTable};
use vstd::prelude::*;

verus! {

pub open spec fn is_sep(b: u8) -> bool {
    b == 45 || b == 46
}

/// The byte string `name` ends with `.` and then `ext`, after a non-empty stem.
pub open spec fn has_ext(name: Seq<u8>, ext: Seq<u8>) -> bool {
    &&& name.len() > ext.len() + 1
    &&& name[name.len() - ext.len() - 1] == 46
    &&& name.subrange(name.len() - ext.len(), name.len() as int) == ext
}

/// The index of the first separator (`-` or `.`) at or after `from`, or the length.
pub open spec fn next_sep(name: Seq<u8>, from: int) -> int
    decreases name.len() - from,
{
    if from >= name.len() {
        name.len() as int
    } else if is_sep(name[from]) {
        from
    } else {
        next_sep(name, from + 1)
    }
}

/// The second field of a name split at `-` and `.`: its bounds, when the
/// name has a separator.
pub open spec fn epoch_field(name: Seq<u8>) -> Option<Seq<u8>> {
    let s = next_sep(name, 0);
    if s >= name.len() {
        None
    } else {
        Some(name.subrange(s + 1, next_sep(name, s + 1)))
    }
}

pub open spec fn is_dec(b: u8) -> bool {
    48 <= b <= 57
}

/// The number a string of decimal digits stands for.
pub open spec fn dec_value(s: Seq<u8>) -> nat
    decreases s.len(),
{
    if s.len() == 0 {
        0
    } else {
        dec_value(s.drop_last()) * 10 + (s.last() - 48) as nat
    }
}

/// The epoch a file name holds: its second field, a non-empty string of
/// decimal digits that fits 64 bits.
pub open spec fn epoch_of(name: Seq<u8>) -> Option<u128> {
    match epoch_field(name) {
        Some(f) => if f.len() > 0 && (forall|i: int| 0 <= i < f.len() ==> is_dec(#[trigger] f[i]))
            && dec_value(f) <= u128::MAX {
            Some(dec_value(f) as u128)
        } else {
            None
        },
        None => None,
    }
}

pub open spec fn ext_of(wal: bool) -> Seq<u8> {
    if wal {
        seq![119u8, 97u8, 108u8]
    } else {
        seq![116u8, 97u8, 98u8, 108u8, 101u8]
    }
}

/// The memtable that replaying `es` in order over `m` gives.
pub open spec fn replay(m: Map<u128, EventView>, es: Seq<EventView>) -> Map<u128, EventView>
    decreases es.len(),
{
    if es.len() == 0 {
        m
    } else {
        replay(m, es.drop_last()).insert(es.last().tid, es.last())
    }
}

/// Replaying several logs, one after the other.
pub open spec fn replay_logs(m: Map<u128, EventView>, logs: Seq<Seq<EventView>>) -> Map<u128, EventView>
    decreases logs.len(),
{
    if logs.len() == 0 {
        m
    } else {
        replay(replay_logs(m, logs.drop_last()), logs.last())
    }
}

/// Finds the index of the next separator at or after `from`.
fn find_sep(name: &Vec<u8>, from: usize) -> (r: usize)
    requires
        from <= name.len(),
    ensures
        r == next_sep(name@, from as int),
        from <= r <= name.len(),
{
    let mut i = from;
    while i < name.len() && name[i] != 45 && name[i] != 46
        invariant
            from <= i <= name.len(),
            next_sep(name@, from as int) == next_sep(name@, i as int),
        decreases name.len() - i,
    {
        i = i + 1;
    }
    i
}

/// Reads the epoch of a file name.
pub fn parse_epoch(name: &Vec<u8>) -> (r: Option<u128>)
    ensures
        r == epoch_of(name@),
{
    let s = find_sep(name, 0);
    if s >= name.len() {
        return None;
    }
    let e = find_sep(name, s + 1);
    let ghost f = name@.subrange(s + 1, e as int);
    assert(epoch_field(name@) == Some(f));
    if e == s + 1 {
        return None;
    }
    let mut v: u128 = 0;
    let mut i = s + 1;
    while i < e
        invariant
            s + 1 <= i <= e <= name.len(),
            f == name@.subrange(s + 1, e as int),
            s == next_sep(name@, 0),
            s < name.len(),
            e == next_sep(name@, s + 1),
            epoch_field(name@) == Some(f),
            f.len() > 0,
            forall|k: int| 0 <= k < i - (s + 1) ==> is_dec(#[trigger] f[k]),
            v as nat == dec_value(f.subrange(0, i - (s + 1))),
        decreases e - i,
    {
        let c = name[i];
        if c < 48 || c > 57 {
            assert(!is_dec(f[i - (s + 1)]));
            return None;
        }
        let ghost pre = f.subrange(0, i - (s + 1));
        let ghost nxt = f.subrange(0, i + 1 - (s + 1));
        proof {
            assert(nxt.drop_last() =~= pre);
            assert(nxt.last() == c);
        }
        if v > (u128::MAX - (c - 48) as u128) / 10 {
            proof {
                assert(dec_value(nxt) > u128::MAX);
                if forall|k: int| 0 <= k < f.len() ==> is_dec(#[trigger] f[k]) {
                    lemma_dec_prefix_le(f, i + 1 - (s + 1));
                }
            }
            return None;
        }
        v = v * 10 + (c - 48) as u128;
        i = i + 1;
    }
    proof {
        assert(f.subrange(0, f.len() as int) =~= f);
    }
    Some(v)
}

/// A decimal prefix stands for no more than the whole string.
pub proof fn lemma_dec_prefix_le(f: Seq<u8>, k: int)
    requires
        0 <= k <= f.len(),
        forall|i: int| 0 <= i < f.len() ==> is_dec(#[trigger] f[i]),
    ensures
        dec_value(f.subrange(0, k)) <= dec_value(f),
    decreases f.len() - k,
{
    if k < f.len() {
        let d = f.drop_last();
        lemma_dec_prefix_le(d, if k <= d.len() { k } else { d.len() as int });
        assert(d.subrange(0, k) =~= f.subrange(0, k)) by {
            if k <= d.len() {
            }
        };
        if k == f.len() - 1 {
            assert(f.subrange(0, k) =~= d);
        }
    } else {
        assert(f.subrange(0, k) =~= f);
    }
}

/// Whether a name ends with `.` and the extension.
fn ends_with_ext(name: &Vec<u8>, wal: bool) -> (r: bool)
    ensures
        r == has_ext(name@, ext_of(wal)),
{
    let ext: Vec<u8> = if wal {
        vec![119u8, 97u8, 108u8]
    } else {
        vec![116u8, 97u8, 98u8, 108u8, 101u8]
    };
    assert(ext@ == ext_of(wal));
    if name.len() <= ext.len() + 1 {
        return false;
    }
    let start = name.len() - ext.len();
    if name[start - 1] != 46 {
        return false;
    }
    let mut i: usize = 0;
    while i < ext.len()
        invariant
            start + ext.len() == name.len(),
            ext@ == ext_of(wal),
            name.len() > ext.len() + 1,
            name@[start - 1] == 46,
            i <= ext.len(),
            forall|k: int| 0 <= k < i ==> name@[start + k] == ext@[k],
        decreases ext.len() - i,
    {
        if name[start + i] != ext[i] {
            assert(name@.subrange(start as int, name.len() as int)[i as int] != ext@[i as int]);
            return false;
        }
        i = i + 1;
    }
    assert(name@.subrange(start as int, name.len() as int) =~= ext@);
    true
}

/// Sorted by epoch, ascending.
pub open spec fn epochs_sorted(r: Seq<(u128, usize)>) -> bool {
    forall|i: int, j: int| 0 <= i < j < r.len() ==> r[i].0 <= r[j].0
}

/// The bytes read as a run of records whose ids are not strictly ascending.
pub open spec fn table_unsorted(bytes: Seq<u8>, es: Seq<EventView>) -> bool {
    reads_as(bytes, es) && !sorted_by_tid(es)
}

/// Some table file reads as a run whose ids are not strictly ascending.
pub open spec fn some_table_unsorted(tables: Seq<(u128, Vec<u8>)>) -> bool {
    exists|i: int, es: Seq<EventView>| 0 <= i < tables.len() && #[trigger] table_unsorted(tables[i].1@, es)
}

/// Finds the database's own files.
pub struct Recovery {}

impl Recovery {
    /// The files of a directory listing whose extension is `wal` (or
    /// `table`): each one's epoch and its index in `names`, in ascending
    /// epoch order. A matching name without an epoch is an error.
    pub fn recover_files(&self, names: &Vec<Vec<u8>>, wal: bool) -> (r: Result<
        Vec<(u128, usize)>,
        StorageEngineError,
    >)
        ensures
            r is Ok ==> {
                let v = r->Ok_0@;
                &&& epochs_sorted(v)
                &&& forall|k: int|
                    0 <= k < v.len() ==> (#[trigger] v[k]).1 < names@.len() && has_ext(
                        names@[v[k].1 as int]@,
                        ext_of(wal),
                    ) && epoch_of(names@[v[k].1 as int]@) == Some(v[k].0)
                &&& forall|a: int, b: int| 0 <= a < b < v.len() ==> (#[trigger] v[a]).1 != (#[trigger] v[b]).1
                &&& forall|i: int|
                    0 <= i < names@.len() && has_ext(#[trigger] names@[i]@, ext_of(wal)) ==> exists|k: int|
                        0 <= k < v.len() && v[k].1 == i
            },
            r is Err <==> exists|i: int|
                0 <= i < names@.len() && has_ext(#[trigger] names@[i]@, ext_of(wal)) && epoch_of(
                    names@[i]@,
                ) is None,
    {
        let mut out: Vec<(u128, usize)> = Vec::new();
        let mut i: usize = 0;
        while i < names.len()
            invariant
                i <= names.len(),
                epochs_sorted(out@),
                forall|k: int|
                    0 <= k < out@.len() ==> (#[trigger] out@[k]).1 < i && has_ext(
                        names@[out@[k].1 as int]@,
                        ext_of(wal),
                    ) && epoch_of(names@[out@[k].1 as int]@) == Some(out@[k].0),
                forall|a: int, b: int| 0 <= a < b < out@.len() ==> (#[trigger] out@[a]).1 != (#[trigger] out@[b]).1,
                forall|j: int|
                    0 <= j < i && has_ext(#[trigger] names@[j]@, ext_of(wal)) ==> exists|k: int|
                        0 <= k < out@.len() && out@[k].1 == j,
                forall|j: int|
                    0 <= j < i && has_ext(#[trigger] names@[j]@, ext_of(wal)) ==> epoch_of(names@[j]@) is Some,
            decreases names.len() - i,
        {
            if ends_with_ext(&names[i], wal) {
                let epoch = match parse_epoch(&names[i]) {
                    Some(e) => e,
                    None => {
                        let name = copy_bytes(&names[i]);
                        return Err(
                            if wal {
                                StorageEngineError::InvalidWalFilePath(name)
                            } else {
                                StorageEngineError::InvalidSSTableFilePath(name)
                            },
                        );
                    },
                };
                let mut p: usize = out.len();
                while p > 0 && out[p - 1].0 > epoch
                    invariant
                        p <= out@.len(),
                        epochs_sorted(out@),
                        forall|k: int| p <= k < out@.len() ==> (#[trigger] out@[k]).0 > epoch,
                    decreases p,
                {
                    p = p - 1;
                }
                let ghost prev = out@;
                out.insert(p, (epoch, i));
                proof {
                    assert(out@ == prev.insert(p as int, (epoch, i)));
                    assert forall|a: int, b: int| 0 <= a < b < out@.len() implies out@[a].0 <= out@[b].0 by {
                        if b < p {
                        } else if b == p {
                            assert(out@[a] == prev[a]);
                            assert(prev[a].0 <= prev[p - 1].0);
                        } else if a < p {
                            assert(out@[b] == prev[b - 1]);
                            if p < b {
                                assert(prev[a].0 <= prev[b - 1].0);
                            }
                        } else if a == p {
                            assert(out@[b] == prev[b - 1]);
                        } else {
                            assert(out@[b] == prev[b - 1]);
                            assert(out@[a] == prev[a - 1]);
                        }
                    }
                    assert forall|k: int| 0 <= k < out@.len() implies (#[trigger] out@[k]).1 < i + 1 && has_ext(
                        names@[out@[k].1 as int]@,
                        ext_of(wal),
                    ) && epoch_of(names@[out@[k].1 as int]@) == Some(out@[k].0) by {
                        if k < p {
                            assert(out@[k] == prev[k]);
                        } else if k > p {
                            assert(out@[k] == prev[k - 1]);
                        }
                    }
                    assert forall|a: int, b: int| 0 <= a < b < out@.len() implies (#[trigger] out@[a]).1 != (#[trigger] out@[b]).1 by {
                        if a < p {
                            assert(out@[a] == prev[a]);
                        } else if a > p {
                            assert(out@[a] == prev[a - 1]);
                        }
                        if b < p {
                            assert(out@[b] == prev[b]);
                        } else if b > p {
                            assert(out@[b] == prev[b - 1]);
                        }
                    }
                    assert forall|j: int|
                        0 <= j < i + 1 && has_ext(#[trigger] names@[j]@, ext_of(wal)) implies exists|k: int|
                            0 <= k < out@.len() && out@[k].1 == j by {
                        if j == i {
                            assert(out@[p as int].1 == j);
                        } else {
                            let k = choose|k: int| 0 <= k < prev.len() && prev[k].1 == j;
                            if k < p {
                                assert(out@[k] == prev[k]);
                            } else {
                                assert(out@[k + 1] == prev[k]);
                            }
                        }
                    }
                }
            }
            i = i + 1;
        }
        Ok(out)
    }

    /// Replays the logs, in the order given (ascending epoch), into a fresh
    /// memtable: later events replace earlier ones of the same id.
    pub fn recover_memtable(&self, wals: &Vec<Vec<u8>>) -> (r: MemTable)
        ensures
            r.wf(),
            exists|logs: Seq<Seq<EventView>>|
                {
                    &&& logs.len() == wals@.len()
                    &&& forall|i: int| 0 <= i < logs.len() ==> reads_as(wals@[i]@, #[trigger] logs[i])
                    &&& r@ == replay_logs(Map::empty(), logs)
                },
    {
        let mut memtable = MemTable::new();
        let ghost mut logs: Seq<Seq<EventView>> = Seq::empty();
        let mut i: usize = 0;
        while i < wals.len()
            invariant
                i <= wals.len(),
                memtable.wf(),
                logs.len() == i,
                forall|k: int| 0 <= k < logs.len() ==> reads_as(wals@[k]@, #[trigger] logs[k]),
                memtable@ == replay_logs(Map::empty(), logs),
            decreases wals.len() - i,
        {
            let events = decode_events(&wals[i]);
            let ghost es = views(events@);
            let ghost base = memtable@;
            let n = events.len();
            let mut j: usize = 0;
            proof {
                assert(es.subrange(0, 0) =~= Seq::<EventView>::empty());
            }
            while j < n
                invariant
                    memtable.wf(),
                    j <= n,
                    n == events@.len(),
                    es == views(events@),
                    memtable@ == replay(base, es.subrange(0, j as int)),
                decreases n - j,
            {
                let e = events[j].duplicate();
                proof {
                    let nxt = es.subrange(0, j + 1);
                    assert(nxt.drop_last() =~= es.subrange(0, j as int));
                }
                memtable.insert(e);
                j = j + 1;
            }
            proof {
                assert(es.subrange(0, n as int) =~= es);
                let nl = logs.push(es);
                assert(nl.drop_last() =~= logs);
                logs = nl;
            }
            i = i + 1;
        }
        memtable
    }

    /// Loads the tables, in the order given (ascending epoch). A file whose
    /// records are not in strictly ascending id order is an error.
    pub fn recover_sstable(&self, tables: &Vec<(u128, Vec<u8>)>) -> (r: Result<Vec<SSTable>, StorageEngineError>)
        ensures
            r is Ok ==> {
                let v = r->Ok_0@;
                &&& v.len() == tables@.len()
                &&& forall|i: int| 0 <= i < v.len() ==> (#[trigger] v[i]).wf() && v[i]@.epoch == tables@[i].0
                    && reads_as(tables@[i].1@, v[i]@.events)
            },
            r is Err ==> r->Err_0 is FailedSSTableCreation,
            r is Err <==> some_table_unsorted(tables@),
    {
        let mut out: Vec<SSTable> = Vec::new();
        let mut i: usize = 0;
        while i < tables.len()
            invariant
                i <= tables.len(),
                out@.len() == i,
                forall|k: int| 0 <= k < i ==> (#[trigger] out@[k]).wf() && out@[k]@.epoch == tables@[k].0
                    && reads_as(tables@[k].1@, out@[k]@.events),
            decreases tables.len() - i,
        {
            match SSTable::from_bytes(tables[i].0, &tables[i].1) {
                Some(t) => {
                    out.push(t);
                },
                None => {
                    proof {
                        let es = choose|es: Seq<EventView>| reads_as(tables@[i as int].1@, es) && !sorted_by_tid(es);
                        assert(table_unsorted(tables@[i as int].1@, es));
                    }
                    return Err(StorageEngineError::FailedSSTableCreation(tables[i].0));
                },
            }
            i = i + 1;
        }
        proof {
            assert forall|k: int, es: Seq<EventView>|
                0 <= k < tables@.len() && #[trigger] table_unsorted(tables@[k].1@, es) implies false by {
                lemma_reads_as_unique(tables@[k].1@, es, out@[k]@.events);
            }
        }
        Ok(out)
    }
}

/// The events of a log file's bytes, in order.
fn decode_events(b: &Vec<u8>) -> (r: Vec<crate::event::Event>)
    ensures
        reads_as(b@, views(r@)),
{
    crate::codec::decode_all(b)
}

/// Replaying a log leaves, for each id, the last event of that id.
pub proof fn lemma_replay_last(m: Map<u128, EventView>, es: Seq<EventView>, k: int)
    requires
        0 <= k < es.len(),
        forall|j: int| k < j < es.len() ==> (#[trigger] es[j]).tid != es[k].tid,
    ensures
        replay(m, es).contains_key(es[k].tid),
        replay(m, es)[es[k].tid] == es[k],
    decreases es.len(),
{
    if k < es.len() - 1 {
        let d = es.drop_last();
        assert(es.last().tid != es[k].tid);
        assert forall|j: int| k < j < d.len() implies (#[trigger] d[j]).tid != d[k].tid by {
            assert(d[j] == es[j]);
        }
        lemma_replay_last(m, d, k);
    }
}

/// Recovery reads back what was logged: when each log file holds the records
/// of the events appended to it, the logs read at recovery are those events,
/// and the memtable rebuilt from them is their replay, file after file.
pub proof fn lemma_recovered_logs(
    files: Seq<Seq<u8>>,
    written: Seq<Seq<EventView>>,
    logs: Seq<Seq<EventView>>,
)
    requires
        files.len() == written.len(),
        logs.len() == files.len(),
        forall|i: int| 0 <= i < files.len() ==> #[trigger] files[i] == records(written[i]),
        forall|i: int, k: int|
            0 <= i < written.len() && 0 <= k < written[i].len() ==> sized(#[trigger] written[i][k]),
        forall|i: int| 0 <= i < files.len() ==> reads_as(files[i], #[trigger] logs[i]),
    ensures
        logs == written,
        replay_logs(Map::empty(), logs) == replay_logs(Map::empty(), written),
{
    assert forall|i: int| 0 <= i < logs.len() implies #[trigger] logs[i] == written[i] by {
        assert(records(written[i]) + Seq::<u8>::empty() =~= files[i]);
        assert(forall|k: int| 0 <= k < written[i].len() ==> sized(#[trigger] written[i][k]));
        lemma_read_back(written[i], Seq::empty(), logs[i]);
    }
    assert(logs =~= written);
}

/// A table read back from the bytes it was written as holds the same events.
pub proof fn lemma_table_reads_back(es: Seq<EventView>, r: Seq<EventView>)
    requires
        forall|k: int| 0 <= k < es.len() ==> sized(#[trigger] es[k]),
        reads_as(records(es), r),
    ensures
        r == es,
{
    assert(records(es) + Seq::<u8>::empty() =~= records(es));
    lemma_read_back(es, Seq::empty(), r);
}

/// Recovery is idempotent: the same files, read twice, give the same
/// memtable and the same tables.
pub proof fn lemma_recovery_idempotent(
    wals: Seq<Seq<u8>>,
    logs1: Seq<Seq<EventView>>,
    logs2: Seq<Seq<EventView>>,
    tables: Seq<Seq<u8>>,
    t1: Seq<Seq<EventView>>,
    t2: Seq<Seq<EventView>>,
)
    requires
        logs1.len() == wals.len(),
        logs2.len() == wals.len(),
        forall|i: int| 0 <= i < wals.len() ==> reads_as(wals[i], #[trigger] logs1[i]),
        forall|i: int| 0 <= i < wals.len() ==> reads_as(wals[i], #[trigger] logs2[i]),
        t1.len() == tables.len(),
        t2.len() == tables.len(),
        forall|i: int| 0 <= i < tables.len() ==> reads_as(tables[i], #[trigger] t1[i]),
        forall|i: int| 0 <= i < tables.len() ==> reads_as(tables[i], #[trigger] t2[i]),
    ensures
        replay_logs(Map::empty(), logs1) == replay_logs(Map::empty(), logs2),
        t1 == t2,
{
    assert forall|i: int| 0 <= i < wals.len() implies #[trigger] logs1[i] == logs2[i] by {
        lemma_reads_as_unique(wals[i], logs1[i], logs2[i]);
    }
    assert forall|i: int| 0 <= i < tables.len() implies #[trigger] t1[i] == t2[i] by {
        lemma_reads_as_unique(tables[i], t1[i], t2[i]);
    }
    assert(logs1 =~= logs2);
    assert(t1 =~= t2);
}

/// The events of several logs, one log after the other.
pub open spec fn concat_logs(logs: Seq<Seq<EventView>>) -> Seq<EventView>
    decreases logs.len(),
{
    if logs.len() == 0 {
        Seq::empty()
    } else {
        concat_logs(logs.drop_last()) + logs.last()
    }
}

pub proof fn lemma_replay_append(m: Map<u128, EventView>, a: Seq<EventView>, b: Seq<EventView>)
    ensures
        replay(m, a + b) == replay(replay(m, a), b),
    decreases b.len(),
{
    if b.len() == 0 {
        assert(a + b =~= a);
    } else {
        lemma_replay_append(m, a, b.drop_last());
        assert((a + b).drop_last() =~= a + b.drop_last());
        assert((a + b).last() == b.last());
    }
}

pub proof fn lemma_replay_logs_concat(m: Map<u128, EventView>, logs: Seq<Seq<EventView>>)
    ensures
        replay_logs(m, logs) == replay(m, concat_logs(logs)),
    decreases logs.len(),
{
    if logs.len() > 0 {
        lemma_replay_logs_concat(m, logs.drop_last());
        lemma_replay_append(m, concat_logs(logs.drop_last()), logs.last());
    }
}

/// Every event appended to intact log files is recovered as the last event
/// of its id: when each file holds the records of the events appended to it,
/// the memtable rebuilt from the files maps the id of the `k`-th event of the
/// run (files in order, each in append order) to the last event of the run
/// with that id.
pub proof fn lemma_recovered_last_event(
    files: Seq<Seq<u8>>,
    written: Seq<Seq<EventView>>,
    logs: Seq<Seq<EventView>>,
    k: int,
)
    requires
        files.len() == written.len(),
        logs.len() == files.len(),
        forall|i: int| 0 <= i < files.len() ==> #[trigger] files[i] == records(written[i]),
        forall|i: int, j: int|
            0 <= i < written.len() && 0 <= j < written[i].len() ==> sized(#[trigger] written[i][j]),
        forall|i: int| 0 <= i < files.len() ==> reads_as(files[i], #[trigger] logs[i]),
        0 <= k < concat_logs(written).len(),
        forall|j: int|
            k < j < concat_logs(written).len() ==> (#[trigger] concat_logs(written)[j]).tid
                != concat_logs(written)[k].tid,
    ensures
        replay_logs(Map::empty(), logs).contains_key(concat_logs(written)[k].tid),
        replay_logs(Map::empty(), logs)[concat_logs(written)[k].tid] == concat_logs(written)[k],
{
    lemma_recovered_logs(files, written, logs);
    lemma_replay_logs_concat(Map::empty(), written);
    lemma_replay_last(Map::empty(), concat_logs(written), k);
}

} // verus!

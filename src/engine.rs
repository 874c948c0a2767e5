//! The storage engine: the key map, the bloom filter, the write-ahead log,
//! the memtable and the stack of sorted tables, behind add, delete and get.
//!
//! The engine holds the content of its files; the caller writes them out: the
//! log's new bytes after each add or delete, a new table after a memtable
//! seal, the merged table (and the removal of its two inputs) after a merge.
use crate::bloom::{
    bloom_add, bloom_has, lemma_add_keeps_present, lemma_added_is_present, BloomFilter, BF_SIZE,
};
use crate::event::{bytes_equal, copy_bytes, new_tid, Action, Event, EventView};
use crate::memtable::{add_size, in_id_order, lemma_in_order_covers, size_of_event, sub_size, MemTable};
use crate::request::{action_code, code_of_action, op_of, Operation, Request, Response, Status};
use crate::sstable::{event_of, has_tid, is_merge, sorted_by_tid, SSTable, TableView};
use crate::codec::{reads_as, record, views};
use crate::errors::StorageEngineError;
use crate::recovery::{replay_logs, Recovery};
use crate::wal::{Wal, WalView};
use vstd::prelude::*;

verus! {

/// The engine as a mathematical value.
pub struct EngineView {
    pub threshold: usize,
    pub keys: Map<Seq<u8>, u128>,
    pub mem: Map<u128, EventView>,
    pub mem_size: nat,
    pub tables: Seq<TableView>,
    pub bloom: Seq<bool>,
    pub wal: WalView,
}

impl EngineView {
    /// The facts that hold of every engine state: each mapped id, and each id
    /// in the memtable or in a table, is present in the bloom filter.
    pub open spec fn consistent(self) -> bool {
        &&& self.bloom.len() == BF_SIZE
        &&& forall|k: Seq<u8>| #[trigger] self.keys.contains_key(k) ==> bloom_has(self.bloom, self.keys[k])
        &&& forall|t: u128| #[trigger] self.mem.contains_key(t) ==> bloom_has(self.bloom, t) && self.mem[t].tid == t
        &&& forall|i: int, t: u128|
            0 <= i < self.tables.len() && #[trigger] has_tid(self.tables[i].events, t) ==> bloom_has(
                self.bloom,
                t,
            )
        &&& forall|i: int| 0 <= i < self.tables.len() ==> sorted_by_tid(#[trigger] self.tables[i].events)
    }
}

/// The id a key resolves to: its mapped id, or `fresh` for a new key.
pub open spec fn resolve(v: EngineView, k: Seq<u8>, fresh: u128) -> u128 {
    if v.keys.contains_key(k) {
        v.keys[k]
    } else {
        fresh
    }
}

/// The state after logging `e` and inserting it into the memtable; a new key
/// is mapped to `e`'s id, which enters the bloom filter.
pub open spec fn log_event(v: EngineView, e: EventView) -> EngineView {
    let known = v.keys.contains_key(e.key);
    EngineView {
        keys: if known {
            v.keys
        } else {
            v.keys.insert(e.key, e.tid)
        },
        bloom: if known {
            v.bloom
        } else {
            bloom_add(v.bloom, e.tid)
        },
        mem: v.mem.insert(e.tid, e),
        mem_size: add_size(
            if v.mem.contains_key(e.tid) {
                sub_size(v.mem_size, size_of_event(v.mem[e.tid]))
            } else {
                v.mem_size
            },
            size_of_event(e),
        ),
        wal: WalView { epoch: v.wal.epoch, bytes: v.wal.bytes + record(e) },
        ..v
    }
}

/// Some key maps to id `t`.
pub open spec fn id_used(v: EngineView, t: u128) -> bool {
    exists|k: Seq<u8>| v.keys.contains_key(k) && #[trigger] v.keys[k] == t
}

/// Key `k` may take id `t`: it is mapped already (and keeps its id), or no
/// key maps to `t`.
pub open spec fn id_ok(v: EngineView, k: Seq<u8>, t: u128) -> bool {
    v.keys.contains_key(k) || !id_used(v, t)
}

/// The number of random ids drawn for a new key before giving up.
pub const MAX_DRAWS: usize = 8;

/// The event a write request becomes.
pub open spec fn write_event(v: EngineView, req: Request, fresh: u128) -> EventView {
    EventView {
        seq: req.seq,
        tid: resolve(v, req.key@, fresh),
        key: req.key@,
        action: Action::Write,
        payload: Some(req.payload@),
    }
}

/// The event a delete request becomes.
pub open spec fn delete_event_of(v: EngineView, req: Request, fresh: u128) -> EventView {
    EventView {
        seq: req.seq,
        tid: resolve(v, req.key@, fresh),
        key: req.key@,
        action: Action::Delete,
        payload: None,
    }
}

/// The newest table event with id `t`.
pub open spec fn newest(ts: Seq<TableView>, t: u128) -> Option<EventView>
    decreases ts.len(),
{
    if ts.len() == 0 {
        None
    } else if has_tid(ts.last().events, t) {
        Some(event_of(ts.last().events, t))
    } else {
        newest(ts.drop_last(), t)
    }
}

/// The event a read of key `k` finds: none when the key is unmapped or its
/// id is absent from the bloom filter; else the memtable's, else the newest
/// table's.
pub open spec fn lookup(v: EngineView, k: Seq<u8>) -> Option<EventView> {
    if v.keys.contains_key(k) && bloom_has(v.bloom, v.keys[k]) {
        let t = v.keys[k];
        if v.mem.contains_key(t) {
            Some(v.mem[t])
        } else {
            newest(v.tables, t)
        }
    } else {
        None
    }
}

/// A read finds a live event: one that is no delete.
pub open spec fn found(v: EngineView, k: Seq<u8>) -> bool {
    lookup(v, k) is Some && lookup(v, k)->Some_0.action != Action::Delete
}

pub open spec fn payload_bytes(p: Option<Seq<u8>>) -> Seq<u8> {
    match p {
        Some(s) => s,
        None => Seq::empty(),
    }
}

/// Whether the engine holds an event with id `t`.
pub open spec fn holds(v: EngineView, t: u128) -> bool {
    bloom_has(v.bloom, t) && (v.mem.contains_key(t) || exists|i: int|
        0 <= i < v.tables.len() && #[trigger] has_tid(v.tables[i].events, t))
}

/// The memtable or a table holds an event with key `k` and id `t`.
pub open spec fn holds_event(v: EngineView, k: Seq<u8>, t: u128) -> bool {
    (v.mem.contains_key(t) && v.mem[t].key == k) || exists|a: int, j: int|
        0 <= a < v.tables.len() && 0 <= j < v.tables[a].events.len() && (#[trigger] v.tables[a].events[j]).key
            == k && v.tables[a].events[j].tid == t
}

/// All the events held for a key carry one id.
pub open spec fn one_id_per_key(v: EngineView) -> bool {
    forall|k: Seq<u8>, t1: u128, t2: u128|
        #[trigger] holds_event(v, k, t1) && #[trigger] holds_event(v, k, t2) ==> t1 == t2
}

pub open spec fn key_map(s: Seq<(Vec<u8>, u128)>) -> Map<Seq<u8>, u128> {
    Map::new(
        |k: Seq<u8>| exists|i: int| 0 <= i < s.len() && (#[trigger] s[i]).0@ == k,
        |k: Seq<u8>| s[choose|i: int| 0 <= i < s.len() && (#[trigger] s[i]).0@ == k].1,
    )
}

pub open spec fn keys_unique(s: Seq<(Vec<u8>, u128)>) -> bool {
    forall|i: int, j: int| 0 <= i < j < s.len() ==> (#[trigger] s[i]).0@ != (#[trigger] s[j]).0@
}

proof fn lemma_key_map_at(s: Seq<(Vec<u8>, u128)>, i: int)
    requires
        keys_unique(s),
        0 <= i < s.len(),
    ensures
        key_map(s).contains_key(s[i].0@),
        key_map(s)[s[i].0@] == s[i].1,
{
    let k = s[i].0@;
    assert(s[i].0@ == k);
    let c = choose|c: int| 0 <= c < s.len() && (#[trigger] s[c]).0@ == k;
    if c != i {
        if c < i {
            assert(s[c].0@ != s[i].0@);
        } else {
            assert(s[i].0@ != s[c].0@);
        }
    }
}

proof fn lemma_key_map_push(s: Seq<(Vec<u8>, u128)>, key: Vec<u8>, t: u128)
    requires
        keys_unique(s),
        !key_map(s).contains_key(key@),
    ensures
        keys_unique(s.push((key, t))),
        key_map(s.push((key, t))) == key_map(s).insert(key@, t),
{
    let s2 = s.push((key, t));
    assert forall|i: int, j: int| 0 <= i < j < s2.len() implies (#[trigger] s2[i]).0@ != (
    #[trigger] s2[j]).0@ by {
        if j == s.len() {
            if s2[i].0@ == key@ {
                assert(s[i].0@ == key@);
            }
        } else {
            assert(s2[i] == s[i] && s2[j] == s[j]);
        }
    }
    assert forall|k: Seq<u8>| key_map(s2).contains_key(k) <==> key_map(s).insert(key@, t).contains_key(k) by {
        if key_map(s).contains_key(k) {
            let i = choose|i: int| 0 <= i < s.len() && (#[trigger] s[i]).0@ == k;
            assert(s2[i].0@ == k);
        }
        if k == key@ {
            assert(s2[s.len() as int].0@ == k);
        }
        if key_map(s2).contains_key(k) {
            let i = choose|i: int| 0 <= i < s2.len() && (#[trigger] s2[i]).0@ == k;
            if i < s.len() {
                assert(s[i].0@ == k);
            }
        }
    }
    assert forall|k: Seq<u8>| #[trigger] key_map(s2).contains_key(k) implies key_map(s2)[k] == key_map(
        s,
    ).insert(key@, t)[k] by {
        let i = choose|i: int| 0 <= i < s2.len() && (#[trigger] s2[i]).0@ == k;
        lemma_key_map_at(s2, i);
        if i < s.len() {
            assert(s2[i] == s[i]);
            lemma_key_map_at(s, i);
        }
    }
    assert(key_map(s2) =~= key_map(s).insert(key@, t));
}

proof fn lemma_key_map_set(s: Seq<(Vec<u8>, u128)>, i: int, key: Vec<u8>, t: u128)
    requires
        keys_unique(s),
        0 <= i < s.len(),
        s[i].0@ == key@,
    ensures
        keys_unique(s.update(i, (key, t))),
        key_map(s.update(i, (key, t))) == key_map(s).insert(key@, t),
{
    let s2 = s.update(i, (key, t));
    assert forall|a: int, b: int| 0 <= a < b < s2.len() implies (#[trigger] s2[a]).0@ != (
    #[trigger] s2[b]).0@ by {
        assert(s[a].0@ != s[b].0@);
    }
    lemma_key_map_at(s, i);
    assert forall|k: Seq<u8>| key_map(s2).contains_key(k) <==> key_map(s).insert(key@, t).contains_key(k) by {
        if key_map(s).contains_key(k) {
            let j = choose|j: int| 0 <= j < s.len() && (#[trigger] s[j]).0@ == k;
            assert(s2[j].0@ == k);
        }
        if key_map(s2).contains_key(k) {
            let j = choose|j: int| 0 <= j < s2.len() && (#[trigger] s2[j]).0@ == k;
            assert(s[j].0@ == k);
        }
    }
    assert forall|k: Seq<u8>| #[trigger] key_map(s2).contains_key(k) implies key_map(s2)[k] == key_map(
        s,
    ).insert(key@, t)[k] by {
        let j = choose|j: int| 0 <= j < s2.len() && (#[trigger] s2[j]).0@ == k;
        lemma_key_map_at(s2, j);
        if j != i {
            lemma_key_map_at(s, j);
        }
    }
    assert(key_map(s2) =~= key_map(s).insert(key@, t));
}

/// Logging an event whose id is its key's keeps a state consistent.
pub proof fn lemma_log_consistent(v: EngineView, e: EventView)
    requires
        v.consistent(),
        e.tid == resolve(v, e.key, e.tid),
    ensures
        log_event(v, e).consistent(),
{
    let w = log_event(v, e);
    let known = v.keys.contains_key(e.key);
    if !known {
        lemma_added_is_present(v.bloom, e.tid);
    }
    assert(w.tables == v.tables);
    assert forall|t: u128| bloom_has(v.bloom, t) implies bloom_has(w.bloom, t) by {
        if !known {
            lemma_add_keeps_present(v.bloom, e.tid, t);
        }
    }
    assert forall|k: Seq<u8>| #[trigger] w.keys.contains_key(k) implies bloom_has(w.bloom, w.keys[k]) by {
        if k != e.key {
            assert(v.keys.contains_key(k));
        }
    }
    assert forall|t: u128| #[trigger] w.mem.contains_key(t) implies bloom_has(w.bloom, t)
        && w.mem[t].tid == t by {
        if t != e.tid {
            assert(v.mem.contains_key(t));
        }
    }
    assert forall|i: int, t: u128|
        0 <= i < w.tables.len() && #[trigger] has_tid(w.tables[i].events, t) implies bloom_has(
        w.bloom,
        t,
    ) by {
        assert(w.tables[i] == v.tables[i]);
    }
}

/// The storage engine.
pub struct Engine {
    threshold: usize,
    keys: Vec<(Vec<u8>, u128)>,
    memtable: MemTable,
    sstables: Vec<SSTable>,
    bloom: BloomFilter,
    wal: Wal,
}

impl View for Engine {
    type V = EngineView;

    closed spec fn view(&self) -> EngineView {
        EngineView {
            threshold: self.threshold,
            keys: key_map(self.keys@),
            mem: self.memtable@,
            mem_size: self.memtable.spec_size(),
            tables: self.sstables@.map_values(|t: SSTable| t@),
            bloom: self.bloom@,
            wal: self.wal@,
        }
    }
}

impl Engine {
    pub closed spec fn parts_wf(&self) -> bool {
        &&& self.memtable.wf()
        &&& self.bloom.wf()
        &&& forall|i: int| 0 <= i < self.sstables@.len() ==> (#[trigger] self.sstables@[i]).wf()
        &&& keys_unique(self.keys@)
    }

    /// The engine's invariant.
    pub open spec fn wf(&self) -> bool {
        self.parts_wf() && self@.consistent()
    }

    /// An empty engine that seals its memtable once it reaches `threshold`
    /// bytes, logging to a new log with epoch `wal_epoch`.
    pub fn new(threshold: usize, wal_epoch: u128) -> (r: Engine)
        ensures
            r.wf(),
            r@.threshold == threshold,
            r@.keys == Map::<Seq<u8>, u128>::empty(),
            r@.mem == Map::<u128, EventView>::empty(),
            r@.mem_size == 0,
            r@.tables == Seq::<TableView>::empty(),
            r@.bloom == Seq::new(BF_SIZE as nat, |i: int| false),
            r@.wal == (WalView { epoch: wal_epoch, bytes: Seq::empty() }),
    {
        let r = Engine {
            threshold,
            keys: Vec::new(),
            memtable: MemTable::new(),
            sstables: Vec::new(),
            bloom: BloomFilter::new(),
            wal: Wal::new(wal_epoch),
        };
        proof {
            assert(key_map(r.keys@) =~= Map::<Seq<u8>, u128>::empty());
            assert(r@.tables =~= Seq::<TableView>::empty());
        }
        r
    }

    /// The index of `key` in the key map.
    fn find_key(&self, key: &Vec<u8>) -> (r: Option<usize>)
        requires
            keys_unique(self.keys@),
        ensures
            r is None ==> !key_map(self.keys@).contains_key(key@),
            r is Some ==> r->Some_0 < self.keys@.len() && self.keys@[r->Some_0 as int].0@ == key@
                && key_map(self.keys@).contains_key(key@) && key_map(self.keys@)[key@]
                == self.keys@[r->Some_0 as int].1,
    {
        let mut i: usize = 0;
        while i < self.keys.len()
            invariant
                i <= self.keys.len(),
                keys_unique(self.keys@),
                forall|j: int| 0 <= j < i ==> (#[trigger] self.keys@[j]).0@ != key@,
            decreases self.keys.len() - i,
        {
            if bytes_equal(&self.keys[i].0, key) {
                proof {
                    lemma_key_map_at(self.keys@, i as int);
                }
                return Some(i);
            }
            i = i + 1;
        }
        None
    }

    /// Applies a prepared event: logs it, then inserts it into the memtable.
    /// The event's id must be its key's (any id for a new key), as
    /// `prepare_event` and `prepare_delete` make it.
    pub fn apply_event(&mut self, e: Event)
        requires
            old(self).wf(),
            e.tid == resolve(old(self)@, e.key@, e.tid),
        ensures
            final(self).wf(),
            final(self)@ == log_event(old(self)@, e@),
    {
        let ghost v = old(self)@;
        match self.find_key(&e.key) {
            Some(_) => {},
            None => {
                let ghost old_keys = self.keys@;
                self.keys.push((copy_bytes(&e.key), e.tid));
                proof {
                    let kv = self.keys@[old_keys.len() as int];
                    assert(self.keys@ == old_keys.push(kv));
                    lemma_key_map_push(old_keys, kv.0, kv.1);
                }
                self.bloom.add(e.tid);
            },
        }
        self.wal.add_event(&e);
        let ghost ev = e@;
        self.memtable.insert(e);
        proof {
            lemma_log_consistent(v, ev);
            assert(self@.tables == v.tables);
            assert(self@ =~= log_event(v, ev));
        }
    }

    /// The event a write or delete request becomes, without applying it: it
    /// carries the key's id (or `fresh_tid` for a new key), the request's
    /// sequence number, and for a write the request's payload. A new key
    /// cannot take an id another key maps to: that is refused with
    /// `ServerError`. Any other operation is refused with `InvalidOp`.
    pub fn prepare_event(&self, req: &Request, fresh_tid: u128) -> (r: Result<Event, Status>)
        requires
            self.wf(),
        ensures
            op_of(req.op) == Some(Operation::Write) && id_ok(self@, req.key@, fresh_tid) ==> r is Ok
                && r->Ok_0@ == write_event(self@, *req, fresh_tid),
            op_of(req.op) == Some(Operation::Delete) && id_ok(self@, req.key@, fresh_tid) ==> r is Ok
                && r->Ok_0@ == delete_event_of(self@, *req, fresh_tid),
            (op_of(req.op) == Some(Operation::Write) || op_of(req.op) == Some(Operation::Delete))
                && !id_ok(self@, req.key@, fresh_tid) ==> r == Err::<Event, Status>(Status::ServerError),
            op_of(req.op) != Some(Operation::Write) && op_of(req.op) != Some(Operation::Delete)
                ==> r == Err::<Event, Status>(Status::InvalidOp),
    {
        let action = match Operation::from_code(req.op) {
            Some(Operation::Write) => Action::Write,
            Some(Operation::Delete) => Action::Delete,
            _ => {
                return Err(Status::InvalidOp);
            },
        };
        let tid = match self.find_key(&req.key) {
            Some(i) => self.keys[i].1,
            None => {
                if self.tid_in_use(fresh_tid) {
                    return Err(Status::ServerError);
                }
                fresh_tid
            },
        };
        let mut event = Event::with_id(tid, copy_bytes(&req.key), action, req.seq);
        if action == Action::Write {
            event.set_payload(Some(copy_bytes(&req.payload)));
        }
        Ok(event)
    }

    /// Whether some key maps to `t`.
    pub fn tid_in_use(&self, t: u128) -> (r: bool)
        requires
            self.wf(),
        ensures
            r == id_used(self@, t),
    {
        let mut i: usize = 0;
        while i < self.keys.len()
            invariant
                i <= self.keys.len(),
                self.wf(),
                forall|j: int| 0 <= j < i ==> (#[trigger] self.keys@[j]).1 != t,
            decreases self.keys.len() - i,
        {
            if self.keys[i].1 == t {
                proof {
                    lemma_key_map_at(self.keys@, i as int);
                    let k = self.keys@[i as int].0@;
                    assert(self@.keys[k] == t);
                }
                return true;
            }
            i = i + 1;
        }
        proof {
            assert forall|k: Seq<u8>| self@.keys.contains_key(k) implies #[trigger] self@.keys[k] != t by {
                let j = choose|j: int| 0 <= j < self.keys@.len() && (#[trigger] self.keys@[j]).0@ == k;
                lemma_key_map_at(self.keys@, j);
            }
        }
        false
    }

    /// A random id that no key maps to, drawing at most `MAX_DRAWS` times.
    fn draw_fresh_tid(&self) -> (r: Option<u128>)
        requires
            self.wf(),
        ensures
            r is Some ==> !id_used(self@, r->Some_0),
    {
        let mut draws: usize = 0;
        while draws < MAX_DRAWS
            invariant
                self.wf(),
            decreases MAX_DRAWS - draws,
        {
            let t = new_tid();
            if !self.tid_in_use(t) {
                return Some(t);
            }
            draws = draws + 1;
        }
        None
    }

    /// As `prepare_event`, with a random id for a new key that no other key
    /// maps to. For a new key the draw may keep hitting ids in use; after
    /// `MAX_DRAWS` tries the request is refused with `ServerError`.
    pub fn prepare_request(&self, req: &Request) -> (r: Result<Event, Status>)
        requires
            self.wf(),
        ensures
            op_of(req.op) == Some(Operation::Write) && self@.keys.contains_key(req.key@) ==> r is Ok
                && r->Ok_0@ == write_event(self@, *req, 0),
            op_of(req.op) == Some(Operation::Delete) && self@.keys.contains_key(req.key@) ==> r is Ok
                && r->Ok_0@ == delete_event_of(self@, *req, 0),
            op_of(req.op) == Some(Operation::Write) && r is Ok ==> exists|fresh: u128|
                id_ok(self@, req.key@, fresh) && r->Ok_0@ == #[trigger] write_event(self@, *req, fresh),
            op_of(req.op) == Some(Operation::Delete) && r is Ok ==> exists|fresh: u128|
                id_ok(self@, req.key@, fresh) && r->Ok_0@ == #[trigger] delete_event_of(self@, *req, fresh),
            (op_of(req.op) == Some(Operation::Write) || op_of(req.op) == Some(Operation::Delete)) && r is Err
                ==> r == Err::<Event, Status>(Status::ServerError) && !self@.keys.contains_key(req.key@),
            op_of(req.op) != Some(Operation::Write) && op_of(req.op) != Some(Operation::Delete)
                ==> r == Err::<Event, Status>(Status::InvalidOp),
    {
        if self.find_key(&req.key).is_some() {
            return self.prepare_event(req, 0);
        }
        match Operation::from_code(req.op) {
            Some(Operation::Write) | Some(Operation::Delete) => {},
            _ => {
                return Err(Status::InvalidOp);
            },
        }
        match self.draw_fresh_tid() {
            Some(t) => self.prepare_event(req, t),
            None => Err(Status::ServerError),
        }
    }

    /// The delete event a delete request becomes, without applying it: an
    /// unmapped key is refused with `InvalidKey`.
    pub fn prepare_delete(&self, req: &Request) -> (r: Result<Event, Status>)
        requires
            self.wf(),
        ensures
            self@.keys.contains_key(req.key@) ==> r is Ok && r->Ok_0@ == delete_event_of(self@, *req, 0),
            !self@.keys.contains_key(req.key@) ==> r == Err::<Event, Status>(Status::InvalidKey),
    {
        let tid = match self.find_key(&req.key) {
            Some(i) => self.keys[i].1,
            None => {
                return Err(Status::InvalidKey);
            },
        };
        Ok(Event::with_id(tid, copy_bytes(&req.key), Action::Delete, req.seq))
    }

    /// Applies a write or delete request: the event `prepare_event` makes
    /// of it is logged and then inserted into the memtable. Any other
    /// operation is refused with `InvalidOp` and changes nothing.
    pub fn add_event_with_tid(&mut self, req: &Request, fresh_tid: u128) -> (r: Response)
        requires
            old(self).wf(),
        ensures
            final(self).wf(),
            r.key@ == req.key@,
            r.op == req.op,
            r.payload@ == Seq::<u8>::empty(),
            op_of(req.op) == Some(Operation::Write) && id_ok(old(self)@, req.key@, fresh_tid)
                ==> r.status == Status::Success && final(self)@ == log_event(old(self)@, write_event(old(self)@, *req, fresh_tid)),
            op_of(req.op) == Some(Operation::Delete) && id_ok(old(self)@, req.key@, fresh_tid)
                ==> r.status == Status::Success && final(self)@ == log_event(old(self)@, delete_event_of(old(self)@, *req, fresh_tid)),
            (op_of(req.op) == Some(Operation::Write) || op_of(req.op) == Some(Operation::Delete))
                && !id_ok(old(self)@, req.key@, fresh_tid) ==> r.status == Status::ServerError && final(self)@ == old(self)@,
            op_of(req.op) != Some(Operation::Write) && op_of(req.op) != Some(Operation::Delete)
                ==> r.status == Status::InvalidOp && final(self)@ == old(self)@,
    {
        match self.prepare_event(req, fresh_tid) {
            Ok(event) => {
                self.apply_event(event);
                Response { key: copy_bytes(&req.key), op: req.op, status: Status::Success, payload: Vec::new() }
            },
            Err(status) => Response { key: copy_bytes(&req.key), op: req.op, status, payload: Vec::new() },
        }
    }

    /// Applies a delete request: a delete event for the key's id is logged
    /// and inserted into the memtable. An unmapped key is refused with
    /// `InvalidKey` and changes nothing. The id's bits stay set in the bloom
    /// filter: clearing them could hide other ids that share them.
    pub fn delete_event(&mut self, req: &Request) -> (r: Response)
        requires
            old(self).wf(),
        ensures
            final(self).wf(),
            r.key@ == req.key@,
            r.op == req.op,
            r.payload@ == Seq::<u8>::empty(),
            old(self)@.keys.contains_key(req.key@) ==> r.status == Status::Success && final(self)@
                == log_event(old(self)@, delete_event_of(old(self)@, *req, 0)),
            !old(self)@.keys.contains_key(req.key@) ==> r.status == Status::InvalidKey && final(self)@
                == old(self)@,
    {
        match self.prepare_delete(req) {
            Ok(event) => {
                self.apply_event(event);
                Response { key: copy_bytes(&req.key), op: req.op, status: Status::Success, payload: Vec::new() }
            },
            Err(status) => Response { key: copy_bytes(&req.key), op: req.op, status, payload: Vec::new() },
        }
    }

    /// The newest table event with id `tid`.
    fn newest_in_tables(&self, tid: u128) -> (r: Option<Event>)
        requires
            self.wf(),
        ensures
            opt_event_view(r) == newest(self@.tables, tid),
    {
        let mut i: usize = self.sstables.len();
        proof {
            assert(self@.tables.subrange(0, i as int) =~= self@.tables);
        }
        while i > 0
            invariant
                i <= self.sstables.len(),
                self.wf(),
                newest(self@.tables, tid) == newest(self@.tables.subrange(0, i as int), tid),
            decreases i,
        {
            let ghost ts = self@.tables.subrange(0, i as int);
            proof {
                assert(ts.last() == self.sstables@[i - 1]@);
                assert(ts.drop_last() =~= self@.tables.subrange(0, i - 1));
            }
            if self.sstables[i - 1].contains(tid) {
                let e = self.sstables[i - 1].get(tid);
                return e;
            }
            i = i - 1;
        }
        proof {
            assert(self@.tables.subrange(0, 0) =~= Seq::<TableView>::empty());
        }
        None
    }

    /// Reads a key: `Success` with the payload and action of the event
    /// found, or `InvalidKey` when the key is unmapped, its id is absent from
    /// the bloom filter, no event is found, or the event found is a delete.
    pub fn get_event_by_key(&self, key: &Vec<u8>) -> (r: Response)
        requires
            self.wf(),
        ensures
            r.key@ == key@,
            found(self@, key@) ==> r.status == Status::Success && r.op == action_code(
                lookup(self@, key@)->Some_0.action,
            ) && r.payload@ == payload_bytes(lookup(self@, key@)->Some_0.payload),
            !found(self@, key@) ==> r.status == Status::InvalidKey && r.op == crate::request::OP_READ
                && r.payload@ == Seq::<u8>::empty(),
    {
        let missing = Response {
            key: copy_bytes(key),
            op: crate::request::OP_READ,
            status: Status::InvalidKey,
            payload: Vec::new(),
        };
        let tid = match self.find_key(key) {
            Some(i) => self.keys[i].1,
            None => {
                return missing;
            },
        };
        if !self.bloom.contains(tid) {
            return missing;
        }
        let hit = match self.memtable.event(tid) {
            Some(e) => Some(e),
            None => self.newest_in_tables(tid),
        };
        match hit {
            Some(e) => {
                if e.action == Action::Delete {
                    missing
                } else {
                    let payload = match e.payload {
                        Some(p) => p,
                        None => Vec::new(),
                    };
                    Response {
                        key: copy_bytes(key),
                        op: code_of_action(e.action),
                        status: Status::Success,
                        payload,
                    }
                }
            },
            None => missing,
        }
    }

    /// Whether the engine holds an event with this id: never when the bloom
    /// filter says no; else when the memtable or a table holds one.
    pub fn contains_event(&self, tid: u128) -> (r: bool)
        requires
            self.wf(),
        ensures
            r == holds(self@, tid),
    {
        if !self.bloom.contains(tid) {
            return false;
        }
        if self.memtable.contains(tid) {
            return true;
        }
        let mut i: usize = 0;
        while i < self.sstables.len()
            invariant
                i <= self.sstables.len(),
                self.wf(),
                forall|j: int| 0 <= j < i ==> !has_tid(#[trigger] self@.tables[j].events, tid),
            decreases self.sstables.len() - i,
        {
            if self.sstables[i].contains(tid) {
                assert(has_tid(self@.tables[i as int].events, tid));
                return true;
            }
            i = i + 1;
        }
        false
    }

    /// Applies a write or delete request as `add_event_with_tid` does, with
    /// a random id for a new key that no other key maps to. For a new key the
    /// draw may keep hitting ids in use; after `MAX_DRAWS` tries the request
    /// is refused with `ServerError` and nothing changes.
    pub fn add_event(&mut self, req: &Request) -> (r: Response)
        requires
            old(self).wf(),
        ensures
            final(self).wf(),
            r.key@ == req.key@,
            r.op == req.op,
            op_of(req.op) == Some(Operation::Write) && old(self)@.keys.contains_key(req.key@) ==> r.status
                == Status::Success && final(self)@ == log_event(old(self)@, write_event(old(self)@, *req, 0)),
            op_of(req.op) == Some(Operation::Delete) && old(self)@.keys.contains_key(req.key@) ==> r.status
                == Status::Success && final(self)@ == log_event(old(self)@, delete_event_of(old(self)@, *req, 0)),
            op_of(req.op) == Some(Operation::Write) && r.status == Status::Success ==> exists|fresh: u128|
                id_ok(old(self)@, req.key@, fresh) && final(self)@ == log_event(old(self)@, #[trigger] write_event(old(self)@, *req, fresh)),
            op_of(req.op) == Some(Operation::Delete) && r.status == Status::Success ==> exists|fresh: u128|
                id_ok(old(self)@, req.key@, fresh) && final(self)@ == log_event(old(self)@, #[trigger] delete_event_of(old(self)@, *req, fresh)),
            (op_of(req.op) == Some(Operation::Write) || op_of(req.op) == Some(Operation::Delete)) ==> (r.status
                == Status::Success || (r.status == Status::ServerError && final(self)@ == old(self)@
                && !old(self)@.keys.contains_key(req.key@))),
            op_of(req.op) != Some(Operation::Write) && op_of(req.op) != Some(Operation::Delete)
                ==> r.status == Status::InvalidOp && final(self)@ == old(self)@,
    {
        match self.prepare_request(req) {
            Ok(event) => {
                self.apply_event(event);
                Response { key: copy_bytes(&req.key), op: req.op, status: Status::Success, payload: Vec::new() }
            },
            Err(status) => Response { key: copy_bytes(&req.key), op: req.op, status, payload: Vec::new() },
        }
    }

    /// Seals the memtable once its byte count reaches the threshold: its
    /// events, in id order, become a new table with epoch `table_epoch` on
    /// top of the stack; the memtable starts empty and a new log with epoch
    /// `wal_epoch` replaces the current one. Every id the engine held before,
    /// it holds after. Below the threshold nothing changes.
    pub fn try_memtable_compact(&mut self, table_epoch: u128, wal_epoch: u128) -> (r: bool)
        requires
            old(self).wf(),
        ensures
            final(self).wf(),
            r == (old(self)@.mem_size >= old(self)@.threshold),
            !r ==> final(self)@ == old(self)@,
            r ==> {
                let n = old(self)@.tables.len();
                &&& final(self)@.mem == Map::<u128, EventView>::empty()
                &&& final(self)@.mem_size == 0
                &&& final(self)@.tables.len() == n + 1
                &&& final(self)@.tables.subrange(0, n as int) == old(self)@.tables
                &&& final(self)@.tables[n as int].epoch == table_epoch
                &&& in_id_order(final(self)@.tables[n as int].events, old(self)@.mem)
                &&& final(self)@.keys == old(self)@.keys
                &&& final(self)@.bloom == old(self)@.bloom
                &&& final(self)@.threshold == old(self)@.threshold
                &&& final(self)@.wal == (WalView { epoch: wal_epoch, bytes: Seq::empty() })
            },
            forall|t: u128| holds(final(self)@, t) == holds(old(self)@, t),
    {
        if self.memtable.size() < self.threshold {
            return false;
        }
        let ghost v = self@;
        let table = SSTable::from_memtable(table_epoch, &self.memtable);
        self.sstables.push(table);
        self.memtable = MemTable::new();
        self.wal = Wal::new(wal_epoch);
        proof {
            let w = self@;
            let n = v.tables.len();
            old(self).memtable.lemma_wf();
            assert(w.tables =~= v.tables.push(table@));
            assert(w.tables.subrange(0, n as int) =~= v.tables);
            assert forall|t: u128| has_tid(table@.events, t) <==> v.mem.contains_key(t) by {
                if has_tid(table@.events, t) {
                    let k = choose|k: int| 0 <= k < table@.events.len() && #[trigger] table@.events[k].tid == t;
                    assert(v.mem.contains_key(table@.events[k].tid));
                }
                if v.mem.contains_key(t) {
                    lemma_in_order_covers(table@.events, v.mem, t);
                }
            }
            assert forall|i: int, t: u128|
                0 <= i < w.tables.len() && #[trigger] has_tid(w.tables[i].events, t) implies bloom_has(
                w.bloom,
                t,
            ) by {
                if i < n {
                    assert(w.tables[i] == v.tables[i]);
                }
            }
            assert forall|t: u128| holds(w, t) == holds(v, t) by {
                if holds(v, t) && !v.mem.contains_key(t) {
                    let i = choose|i: int| 0 <= i < v.tables.len() && #[trigger] has_tid(v.tables[i].events, t);
                    assert(w.tables[i] == v.tables[i]);
                }
                if holds(w, t) {
                    let i = choose|i: int| 0 <= i < w.tables.len() && #[trigger] has_tid(w.tables[i].events, t);
                    if i < n {
                        assert(w.tables[i] == v.tables[i]);
                    } else {
                        assert(v.mem.contains_key(t));
                    }
                }
                if holds(v, t) && v.mem.contains_key(t) {
                    assert(has_tid(w.tables[n as int].events, t));
                }
            }
            assert(w.mem =~= Map::<u128, EventView>::empty());
            assert forall|i: int| 0 <= i < self.sstables@.len() implies (#[trigger] self.sstables@[i]).wf() by {
                if i < n {
                    assert(self.sstables@[i] == old(self).sstables@[i]);
                }
            }
            assert forall|i: int| 0 <= i < w.tables.len() implies sorted_by_tid(#[trigger] w.tables[i].events) by {
                assert(w.tables[i] == self.sstables@[i]@);
            }
            assert(w.keys == v.keys);
            assert(w.bloom == v.bloom);
            assert(w.bloom.len() == BF_SIZE);
            assert(forall|k: Seq<u8>| #[trigger] w.keys.contains_key(k) ==> bloom_has(w.bloom, w.keys[k]));
            assert(forall|t: u128| #[trigger] w.mem.contains_key(t) ==> bloom_has(w.bloom, t) && w.mem[t].tid == t);
            assert(w.consistent());
        }
        true
    }

    /// Merges the two oldest tables (positions 0 and 1) and puts the merge at
    /// position 0. With fewer than two tables nothing changes.
    pub fn try_sstables_compact(&mut self) -> (r: bool)
        requires
            old(self).wf(),
        ensures
            final(self).wf(),
            r == (old(self)@.tables.len() >= 2),
            !r ==> final(self)@ == old(self)@,
            r ==> {
                let a = old(self)@.tables[0];
                let b = old(self)@.tables[1];
                &&& final(self)@.tables.len() == old(self)@.tables.len() - 1
                &&& final(self)@.tables[0].epoch == (if a.epoch > b.epoch {
                    a.epoch
                } else {
                    b.epoch
                })
                &&& is_merge(final(self)@.tables[0].events, a.events, b.events, a.epoch > b.epoch)
                &&& forall|i: int|
                    1 <= i < final(self)@.tables.len() ==> #[trigger] final(self)@.tables[i]
                        == old(self)@.tables[i + 1]
                &&& final(self)@ == (EngineView { tables: final(self)@.tables, ..old(self)@ })
            },
    {
        if self.sstables.len() < 2 {
            return false;
        }
        let ghost v = self@;
        let a = self.sstables.remove(0);
        let b = self.sstables.remove(0);
        proof {
            assert(a.wf() && b.wf()) by {
                assert(old(self).sstables@[0] == a);
                assert(old(self).sstables@[1] == b);
            }
        }
        let merged = a.merge(b);
        self.sstables.insert(0, merged);
        proof {
            let w = self@;
            let n = v.tables.len();
            assert(w.tables.len() == n - 1);
            assert forall|i: int| 1 <= i < w.tables.len() implies #[trigger] w.tables[i] == v.tables[i + 1] by {
                assert(self.sstables@[i] == old(self).sstables@[i + 1]);
            }
            assert forall|i: int| 0 <= i < self.sstables@.len() implies (#[trigger] self.sstables@[i]).wf() by {
                if i > 0 {
                    assert(self.sstables@[i] == old(self).sstables@[i + 1]);
                }
            }
            assert forall|i: int, t: u128|
                0 <= i < w.tables.len() && #[trigger] has_tid(w.tables[i].events, t) implies bloom_has(
                w.bloom,
                t,
            ) by {
                if i == 0 {
                    let k = choose|k: int| 0 <= k < w.tables[0].events.len() && #[trigger] w.tables[0].events[k].tid == t;
                    assert(crate::sstable::survives(v.tables[0].events, v.tables[1].events, a@.epoch > b@.epoch, w.tables[0].events[k].tid));
                    if has_tid(v.tables[0].events, t) {
                        assert(has_tid(v.tables[0].events, t));
                    } else {
                        assert(has_tid(v.tables[1].events, t));
                    }
                } else {
                    assert(w.tables[i] == v.tables[i + 1]);
                }
            }
            assert forall|i: int| 0 <= i < w.tables.len() implies sorted_by_tid(#[trigger] w.tables[i].events) by {
                if i > 0 {
                    assert(w.tables[i] == v.tables[i + 1]);
                }
            }
            assert(w == (EngineView { tables: w.tables, ..v }));
        }
        true
    }

    /// Maps the event's key to its id and adds the id to the bloom filter.
    fn index(&mut self, e: &Event)
        requires
            old(self).parts_wf(),
            old(self)@.bloom.len() == BF_SIZE,
        ensures
            final(self).parts_wf(),
            final(self)@ == (EngineView {
                keys: old(self)@.keys.insert(e.key@, e.tid),
                bloom: bloom_add(old(self)@.bloom, e.tid),
                ..old(self)@
            }),
            final(self)@.bloom.len() == BF_SIZE,
            bloom_has(final(self)@.bloom, e.tid),
            forall|t: u128| bloom_has(old(self)@.bloom, t) ==> bloom_has(final(self)@.bloom, t),
    {
        let ghost v = self@;
        match self.find_key(&e.key) {
            Some(i) => {
                let ghost old_keys = self.keys@;
                self.keys.set(i, (copy_bytes(&e.key), e.tid));
                proof {
                    let kv = self.keys@[i as int];
                    assert(self.keys@ == old_keys.update(i as int, kv));
                    lemma_key_map_set(old_keys, i as int, kv.0, kv.1);
                }
            },
            None => {
                let ghost old_keys = self.keys@;
                self.keys.push((copy_bytes(&e.key), e.tid));
                proof {
                    let kv = self.keys@[old_keys.len() as int];
                    assert(self.keys@ == old_keys.push(kv));
                    lemma_key_map_push(old_keys, kv.0, kv.1);
                    assert(v.keys.insert(e.key@, e.tid) == key_map(old_keys).insert(kv.0@, kv.1));
                }
            },
        }
        self.bloom.add(e.tid);
        proof {
            lemma_added_is_present(v.bloom, e.tid);
            assert forall|t: u128| bloom_has(v.bloom, t) implies bloom_has(self@.bloom, t) by {
                lemma_add_keeps_present(v.bloom, e.tid, t);
            }
            assert(self@ =~= (EngineView {
                keys: v.keys.insert(e.key@, e.tid),
                bloom: bloom_add(v.bloom, e.tid),
                ..v
            }));
        }
    }

    /// Indexes a run of events.
    fn index_all(&mut self, es: &Vec<Event>)
        requires
            old(self).parts_wf(),
            old(self)@.bloom.len() == BF_SIZE,
            forall|k: Seq<u8>| #[trigger] old(self)@.keys.contains_key(k) ==> bloom_has(old(self)@.bloom, old(self)@.keys[k]),
            forall|k: Seq<u8>| #[trigger] old(self)@.keys.contains_key(k) ==> holds_event(old(self)@, k, old(self)@.keys[k]),
            forall|j: int| 0 <= j < es@.len() ==> holds_event(old(self)@, (#[trigger] es@[j]).key@, es@[j].tid),
        ensures
            forall|k: Seq<u8>| #[trigger] final(self)@.keys.contains_key(k) ==> holds_event(final(self)@, k, final(self)@.keys[k]),
            final(self).parts_wf(),
            final(self)@ == (EngineView { keys: final(self)@.keys, bloom: final(self)@.bloom, ..old(self)@ }),
            final(self)@.bloom.len() == BF_SIZE,
            forall|k: Seq<u8>| #[trigger] final(self)@.keys.contains_key(k) ==> bloom_has(final(self)@.bloom, final(self)@.keys[k]),
            forall|t: u128| bloom_has(old(self)@.bloom, t) ==> bloom_has(final(self)@.bloom, t),
            forall|k: Seq<u8>| old(self)@.keys.contains_key(k) ==> #[trigger] final(self)@.keys.contains_key(k),
            forall|j: int| 0 <= j < es@.len() ==> bloom_has(final(self)@.bloom, (#[trigger] es@[j]).tid)
                && final(self)@.keys.contains_key(es@[j].key@),
    {
        let mut j: usize = 0;
        while j < es.len()
            invariant
                j <= es.len(),
                self.parts_wf(),
                self@ == (EngineView { keys: self@.keys, bloom: self@.bloom, ..old(self)@ }),
                self@.bloom.len() == BF_SIZE,
                forall|k: Seq<u8>| #[trigger] self@.keys.contains_key(k) ==> bloom_has(self@.bloom, self@.keys[k]),
                forall|t: u128| bloom_has(old(self)@.bloom, t) ==> bloom_has(self@.bloom, t),
                forall|k: Seq<u8>| old(self)@.keys.contains_key(k) ==> #[trigger] self@.keys.contains_key(k),
                forall|m: int| 0 <= m < j ==> bloom_has(self@.bloom, (#[trigger] es@[m]).tid)
                    && self@.keys.contains_key(es@[m].key@),
                forall|k: Seq<u8>| #[trigger] self@.keys.contains_key(k) ==> holds_event(self@, k, self@.keys[k]),
                forall|m: int| 0 <= m < es@.len() ==> holds_event(old(self)@, (#[trigger] es@[m]).key@, es@[m].tid),
            decreases es.len() - j,
        {
            let ghost before = self@;
            self.index(&es[j]);
            proof {
                assert forall|k: Seq<u8>| #[trigger] self@.keys.contains_key(k) implies bloom_has(self@.bloom, self@.keys[k]) by {
                    if k != es@[j as int].key@ {
                        assert(before.keys.contains_key(k));
                    }
                }
                assert forall|k: Seq<u8>| #[trigger] self@.keys.contains_key(k) implies holds_event(self@, k, self@.keys[k]) by {
                    if k != es@[j as int].key@ {
                        assert(before.keys.contains_key(k));
                    } else {
                        assert(holds_event(old(self)@, es@[j as int].key@, es@[j as int].tid));
                    }
                }
            }
            j = j + 1;
        }
    }

    /// Rebuilds an engine from the files of its directory: the logs' bytes
    /// and the tables' epochs and bytes, each in ascending epoch order. The
    /// memtable is the replay of the logs; the tables are read back from
    /// their files; then every key of every event is mapped and every id
    /// enters the bloom filter. A new empty log with epoch `wal_epoch` takes
    /// the writes from here on. A table file whose ids are not strictly
    /// ascending is an error.
    pub fn recover(
        threshold: usize,
        wal_epoch: u128,
        wals: &Vec<Vec<u8>>,
        tables: &Vec<(u128, Vec<u8>)>,
    ) -> (r: Result<Engine, StorageEngineError>)
        ensures
            r is Ok ==> {
                let e = r->Ok_0;
                &&& e.wf()
                &&& e@.threshold == threshold
                &&& e@.wal == (WalView { epoch: wal_epoch, bytes: Seq::empty() })
                &&& exists|logs: Seq<Seq<EventView>>|
                    {
                        &&& logs.len() == wals@.len()
                        &&& forall|i: int| 0 <= i < logs.len() ==> reads_as(wals@[i]@, #[trigger] logs[i])
                        &&& e@.mem == replay_logs(Map::empty(), logs)
                    }
                &&& e@.tables.len() == tables@.len()
                &&& forall|i: int|
                    0 <= i < tables@.len() ==> (#[trigger] e@.tables[i]).epoch == tables@[i].0
                        && reads_as(tables@[i].1@, e@.tables[i].events)
                &&& forall|t: u128| #[trigger] e@.mem.contains_key(t) ==> e@.keys.contains_key(e@.mem[t].key)
                &&& forall|i: int, k: int|
                    0 <= i < e@.tables.len() && 0 <= k < e@.tables[i].events.len()
                        ==> e@.keys.contains_key((#[trigger] e@.tables[i].events[k]).key)
                &&& forall|k: Seq<u8>| #[trigger] e@.keys.contains_key(k) ==> holds_event(e@, k, e@.keys[k])
                &&& forall|k: Seq<u8>, t: u128| #[trigger] holds_event(e@, k, t) ==> e@.keys.contains_key(k)
                &&& one_id_per_key(e@) ==> forall|k: Seq<u8>, t: u128| #[trigger] holds_event(e@, k, t) ==> e@.keys[k] == t
            },
            r is Err ==> r->Err_0 is FailedSSTableCreation,
            r is Err <==> crate::recovery::some_table_unsorted(tables@),
    {
        let recovery = Recovery {};
        let memtable = recovery.recover_memtable(wals);
        let sstables = match recovery.recover_sstable(tables) {
            Ok(t) => t,
            Err(e) => {
                return Err(e);
            },
        };
        let mut engine = Engine {
            threshold,
            keys: Vec::new(),
            memtable,
            sstables,
            bloom: BloomFilter::new(),
            wal: Wal::new(wal_epoch),
        };
        proof {
            assert(key_map(engine.keys@) =~= Map::<Seq<u8>, u128>::empty());
        }
        let ghost v0 = engine@;
        let n = engine.sstables.len();
        let mut i: usize = 0;
        assert(engine@.tables.len() == n);
        while i < n
            invariant
                i <= n,
                n == engine.sstables@.len(),
                n == engine@.tables.len(),
                engine.parts_wf(),
                engine@ == (EngineView { keys: engine@.keys, bloom: engine@.bloom, ..v0 }),
                engine@.bloom.len() == BF_SIZE,
                forall|k: Seq<u8>| #[trigger] engine@.keys.contains_key(k) ==> bloom_has(engine@.bloom, engine@.keys[k]),
                forall|a: int, k: int|
                    0 <= a < i && 0 <= k < engine@.tables[a].events.len() ==> bloom_has(
                        engine@.bloom,
                        (#[trigger] engine@.tables[a].events[k]).tid,
                    ) && engine@.keys.contains_key(engine@.tables[a].events[k].key),
                forall|k: Seq<u8>| #[trigger] engine@.keys.contains_key(k) ==> holds_event(engine@, k, engine@.keys[k]),
            decreases n - i,
        {
            let evs = engine.sstables[i].events();
            let ghost before = engine@;
            proof {
                assert(before.tables[i as int] == engine.sstables@[i as int]@);
                assert forall|j: int| 0 <= j < evs@.len() implies holds_event(before, (#[trigger] evs@[j]).key@, evs@[j].tid) by {
                    assert(views(evs@)[j] == evs@[j]@);
                    assert(before.tables[i as int].events[j] == evs@[j]@);
                }
            }
            engine.index_all(&evs);
            proof {
                assert(engine@.tables == before.tables);
                assert(engine@.tables.len() == engine.sstables@.len());
                assert(before.tables[i as int] == engine.sstables@[i as int]@);
                assert forall|a: int, k: int|
                    0 <= a < i + 1 && 0 <= k < engine@.tables[a].events.len() implies bloom_has(
                        engine@.bloom,
                        (#[trigger] engine@.tables[a].events[k]).tid,
                    ) && engine@.keys.contains_key(engine@.tables[a].events[k].key) by {
                    if a == i {
                        assert(engine@.tables[a] == before.tables[a]);
                        assert(views(evs@)[k] == evs@[k]@);
                        assert(engine@.tables[a].events[k] == evs@[k]@);
                    } else {
                        assert(before.tables[a].events[k] == engine@.tables[a].events[k]);
                    }
                }
            }
            i = i + 1;
        }
        let mevs = engine.memtable.events();
        let ghost before = engine@;
        proof {
            let mv = mevs@.map_values(|e: Event| e@);
            assert forall|j: int| 0 <= j < mevs@.len() implies holds_event(before, (#[trigger] mevs@[j]).key@, mevs@[j].tid) by {
                assert(mv[j] == mevs@[j]@);
                assert(before.mem.contains_key(mv[j].tid));
            }
        }
        engine.index_all(&mevs);
        proof {
            let w = engine@;
            engine.memtable.lemma_wf();
            let mv = mevs@.map_values(|e: Event| e@);
            assert forall|t: u128| #[trigger] w.mem.contains_key(t) implies bloom_has(w.bloom, t)
                && w.mem[t].tid == t && w.keys.contains_key(w.mem[t].key) by {
                lemma_in_order_covers(mv, w.mem, t);
                let k = choose|k: int| 0 <= k < mv.len() && #[trigger] mv[k].tid == t;
                assert(mv[k] == mevs@[k]@);
                assert(w.mem[mv[k].tid] == mv[k]);
            }
            assert forall|a: int, t: u128|
                0 <= a < w.tables.len() && #[trigger] has_tid(w.tables[a].events, t) implies bloom_has(
                w.bloom,
                t,
            ) by {
                let k = choose|k: int| 0 <= k < w.tables[a].events.len() && #[trigger] w.tables[a].events[k].tid == t;
                assert(before.tables[a].events[k] == w.tables[a].events[k]);
            }
            assert forall|a: int| 0 <= a < w.tables.len() implies sorted_by_tid(#[trigger] w.tables[a].events) by {
                assert(w.tables[a] == engine.sstables@[a]@);
            }
            assert forall|a: int, k: int|
                0 <= a < w.tables.len() && 0 <= k < w.tables[a].events.len()
                    implies w.keys.contains_key((#[trigger] w.tables[a].events[k]).key) by {
                assert(before.tables[a].events[k] == w.tables[a].events[k]);
            }
            assert forall|a: int| 0 <= a < tables@.len() implies (#[trigger] w.tables[a]).epoch == tables@[a].0
                && reads_as(tables@[a].1@, w.tables[a].events) by {
                assert(w.tables[a] == engine.sstables@[a]@);
            }
            assert(w.consistent());
            assert forall|k: Seq<u8>, t: u128| #[trigger] holds_event(w, k, t) implies w.keys.contains_key(k) by {
                if !(w.mem.contains_key(t) && w.mem[t].key == k) {
                    let (a, j) = choose|a: int, j: int|
                        0 <= a < w.tables.len() && 0 <= j < w.tables[a].events.len() && (#[trigger] w.tables[a].events[j]).key
                            == k && w.tables[a].events[j].tid == t;
                    assert(w.keys.contains_key(w.tables[a].events[j].key));
                }
            }
        }
        Ok(engine)
    }

    /// The current log.
    pub fn wal(&self) -> (r: &Wal)
        ensures
            r@ == self@.wal,
    {
        &self.wal
    }

    /// The number of tables.
    pub fn table_count(&self) -> (r: usize)
        ensures
            r == self@.tables.len(),
    {
        self.sstables.len()
    }

    /// The table at position `i` (0 is the oldest).
    pub fn table(&self, i: usize) -> (r: &SSTable)
        requires
            i < self@.tables.len(),
        ensures
            r@ == self@.tables[i as int],
    {
        &self.sstables[i]
    }

    /// The memtable's byte count.
    pub fn get_memtable_size(&self) -> (r: usize)
        ensures
            r == self@.mem_size,
    {
        self.memtable.size()
    }
}

pub open spec fn opt_event_view(e: Option<Event>) -> Option<EventView> {
    match e {
        Some(x) => Some(x@),
        None => None,
    }
}

/// A read right after a write of its key finds that write: `Success` with
/// the request's payload.
pub proof fn lemma_read_your_write(v: EngineView, req: Request, fresh: u128)
    requires
        v.consistent(),
    ensures
        lookup(log_event(v, write_event(v, req, fresh)), req.key@) == Some(write_event(v, req, fresh)),
        found(log_event(v, write_event(v, req, fresh)), req.key@),
        payload_bytes(lookup(log_event(v, write_event(v, req, fresh)), req.key@)->Some_0.payload)
            == req.payload@,
{
    let e = write_event(v, req, fresh);
    lemma_log_consistent(v, e);
}

/// A read right after a delete of its key finds nothing: `InvalidKey`.
pub proof fn lemma_read_after_delete(v: EngineView, req: Request)
    requires
        v.consistent(),
        v.keys.contains_key(req.key@),
    ensures
        !found(log_event(v, delete_event_of(v, req, 0)), req.key@),
{
    let e = delete_event_of(v, req, 0);
    lemma_log_consistent(v, e);
}

/// The state after a run of write requests, applied in order.
pub open spec fn apply_writes(v: EngineView, reqs: Seq<Request>, fresh: u128) -> EngineView
    decreases reqs.len(),
{
    if reqs.len() == 0 {
        v
    } else {
        let u = apply_writes(v, reqs.drop_last(), fresh);
        log_event(u, write_event(u, reqs.last(), fresh))
    }
}

pub proof fn lemma_apply_writes_consistent(v: EngineView, reqs: Seq<Request>, fresh: u128)
    requires
        v.consistent(),
    ensures
        apply_writes(v, reqs, fresh).consistent(),
    decreases reqs.len(),
{
    if reqs.len() > 0 {
        lemma_apply_writes_consistent(v, reqs.drop_last(), fresh);
        let u = apply_writes(v, reqs.drop_last(), fresh);
        lemma_log_consistent(u, write_event(u, reqs.last(), fresh));
    }
}

/// After a run of writes to one key, a read of the key returns the payload
/// and sequence number of the last write; when the writes reached the engine
/// in ascending sequence order, that is the highest sequence number.
pub proof fn lemma_last_write_wins(v: EngineView, reqs: Seq<Request>, fresh: u128)
    requires
        v.consistent(),
        reqs.len() > 0,
        forall|i: int| 0 <= i < reqs.len() ==> (#[trigger] reqs[i]).key@ == reqs[0].key@,
    ensures
        found(apply_writes(v, reqs, fresh), reqs[0].key@),
        lookup(apply_writes(v, reqs, fresh), reqs[0].key@)->Some_0.payload == Some(reqs.last().payload@),
        lookup(apply_writes(v, reqs, fresh), reqs[0].key@)->Some_0.seq == reqs.last().seq,
        (forall|i: int, j: int| 0 <= i < j < reqs.len() ==> reqs[i].seq < reqs[j].seq) ==> forall|i: int|
            0 <= i < reqs.len() ==> (#[trigger] reqs[i]).seq <= lookup(apply_writes(v, reqs, fresh), reqs[0].key@)->Some_0.seq,
{
    let u = apply_writes(v, reqs.drop_last(), fresh);
    lemma_apply_writes_consistent(v, reqs.drop_last(), fresh);
    lemma_read_your_write(u, reqs.last(), fresh);
    assert(reqs.last().key@ == reqs[0].key@);
}

/// The bloom filter has no false negatives: every id in the memtable or in a
/// table is reported present.
pub proof fn lemma_no_false_negatives(v: EngineView, t: u128)
    requires
        v.consistent(),
        v.mem.contains_key(t) || exists|i: int| 0 <= i < v.tables.len() && #[trigger] has_tid(v.tables[i].events, t),
    ensures
        bloom_has(v.bloom, t),
{
}

/// Distinct keys map to distinct ids.
pub open spec fn ids_distinct(v: EngineView) -> bool {
    forall|k1: Seq<u8>, k2: Seq<u8>|
        v.keys.contains_key(k1) && v.keys.contains_key(k2) && k1 != k2 ==> #[trigger] v.keys[k1]
            != #[trigger] v.keys[k2]
}

/// Logging an event whose key keeps its id, or takes an id no key maps to,
/// keeps distinct keys on distinct ids.
pub proof fn lemma_log_keeps_ids_distinct(v: EngineView, e: EventView)
    requires
        ids_distinct(v),
        id_ok(v, e.key, e.tid),
        e.tid == resolve(v, e.key, e.tid),
    ensures
        ids_distinct(log_event(v, e)),
{
    let w = log_event(v, e);
    assert forall|k1: Seq<u8>, k2: Seq<u8>|
        w.keys.contains_key(k1) && w.keys.contains_key(k2) && k1 != k2 implies #[trigger] w.keys[k1]
        != #[trigger] w.keys[k2] by {
        if !v.keys.contains_key(e.key) {
            if k1 == e.key {
                assert(v.keys[k2] != e.tid);
            } else if k2 == e.key {
                assert(v.keys[k1] != e.tid);
            }
        }
    }
}

/// A write or delete of another key, on another id, leaves a read of `k`
/// as it was: with distinct keys on distinct ids, the read of a key after a
/// run of writes to many keys is the read after the last write to it.
pub proof fn lemma_other_key_keeps_read(v: EngineView, e: EventView, k: Seq<u8>)
    requires
        v.consistent(),
        e.tid == resolve(v, e.key, e.tid),
        e.key != k,
        v.keys.contains_key(k) ==> e.tid != v.keys[k],
    ensures
        lookup(log_event(v, e), k) == lookup(v, k),
{
    let w = log_event(v, e);
    lemma_log_consistent(v, e);
    if v.keys.contains_key(k) {
        assert(w.keys[k] == v.keys[k]);
        if !v.keys.contains_key(e.key) {
            lemma_add_keeps_present(v.bloom, e.tid, v.keys[k]);
        }
    } else {
        assert(!w.keys.contains_key(k));
    }
}

} // verus!

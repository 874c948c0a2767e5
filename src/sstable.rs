//! Sorted tables: immutable runs of events in ascending id order, and their
//! merge. A table's file holds the records of its events, one after the other.
use crate::codec::{decode_all, encode_record, lemma_event_sized, records, sized, views};
use crate::event::{Action, Event, EventView};
use crate::memtable::{in_id_order, MemTable};
use vstd::prelude::*;

verus! {

/// Ids strictly ascending.
pub open spec fn sorted_by_tid(s: Seq<EventView>) -> bool {
    forall|i: int, j: int| 0 <= i < j < s.len() ==> s[i].tid < s[j].tid
}

/// Some event of `s` has id `t`.
pub open spec fn has_tid(s: Seq<EventView>, t: u128) -> bool {
    exists|k: int| 0 <= k < s.len() && #[trigger] s[k].tid == t
}

/// The event of `s` with id `t`.
pub open spec fn event_of(s: Seq<EventView>, t: u128) -> EventView {
    s[choose|k: int| 0 <= k < s.len() && #[trigger] s[k].tid == t]
}

/// The event that a merge keeps for id `t`: the one of the newer table when
/// both hold `t`, else the only one.
pub open spec fn chosen(a: Seq<EventView>, b: Seq<EventView>, a_newer: bool, t: u128) -> EventView {
    if has_tid(a, t) && (!has_tid(b, t) || a_newer) {
        event_of(a, t)
    } else {
        event_of(b, t)
    }
}

/// Id `t` is in the merge: some table holds it and the kept event is no delete.
pub open spec fn survives(a: Seq<EventView>, b: Seq<EventView>, a_newer: bool, t: u128) -> bool {
    (has_tid(a, t) || has_tid(b, t)) && chosen(a, b, a_newer, t).action != Action::Delete
}

/// `r` is the merge of `a` and `b`: in id order, the kept event of every id
/// that survives, and nothing else.
pub open spec fn is_merge(r: Seq<EventView>, a: Seq<EventView>, b: Seq<EventView>, a_newer: bool) -> bool {
    &&& sorted_by_tid(r)
    &&& forall|k: int|
        0 <= k < r.len() ==> survives(a, b, a_newer, #[trigger] r[k].tid) && r[k] == chosen(
            a,
            b,
            a_newer,
            r[k].tid,
        )
    &&& forall|t: u128| survives(a, b, a_newer, t) ==> has_tid(r, t)
}

pub proof fn lemma_event_of(s: Seq<EventView>, k: int)
    requires
        sorted_by_tid(s),
        0 <= k < s.len(),
    ensures
        has_tid(s, s[k].tid),
        event_of(s, s[k].tid) == s[k],
{
    let t = s[k].tid;
    assert(s[k].tid == t);
    let c = choose|c: int| 0 <= c < s.len() && #[trigger] s[c].tid == t;
    if c < k {
        assert(s[c].tid < s[k].tid);
    } else if c > k {
        assert(s[k].tid < s[c].tid);
    }
}

/// An immutable sorted table: its epoch (microseconds at creation, used to
/// name its file and to tell the newer of two tables) and its events.
pub struct SSTable {
    epoch: u128,
    events: Vec<Event>,
}

pub struct TableView {
    pub epoch: u128,
    pub events: Seq<EventView>,
}

impl View for SSTable {
    type V = TableView;

    closed spec fn view(&self) -> TableView {
        TableView { epoch: self.epoch, events: views(self.events@) }
    }
}

impl SSTable {
    pub open spec fn wf(&self) -> bool {
        &&& sorted_by_tid(self@.events)
        &&& forall|i: int| 0 <= i < self@.events.len() ==> sized(#[trigger] self@.events[i])
    }

    /// Seals a memtable into a table with the given epoch: its events in id order.
    pub fn from_memtable(epoch: u128, memtable: &MemTable) -> (r: SSTable)
        requires
            memtable.wf(),
        ensures
            r.wf(),
            r@.epoch == epoch,
            in_id_order(r@.events, memtable@),
    {
        let events = memtable.events();
        let r = SSTable { epoch, events };
        proof {
            assert(r@.events =~= events@.map_values(|e: Event| e@));
            assert forall|i: int| 0 <= i < r@.events.len() implies sized(#[trigger] r@.events[i]) by {
                assert(r@.events[i] == events@[i]@);
                lemma_event_sized(events@[i]);
            }
        }
        r
    }

    /// A table read from the bytes of its file: `None` when the records are
    /// not in strictly ascending id order.
    pub fn from_bytes(epoch: u128, bytes: &Vec<u8>) -> (r: Option<SSTable>)
        ensures
            r is Some ==> {
                &&& r->Some_0.wf()
                &&& r->Some_0@.epoch == epoch
                &&& crate::codec::reads_as(bytes@, r->Some_0@.events)
            },
            r is None ==> exists|es: Seq<EventView>|
                crate::codec::reads_as(bytes@, es) && !sorted_by_tid(es),
    {
        let events = decode_all(bytes);
        let n = events.len();
        let mut i: usize = 1;
        while i < n
            invariant
                n == events@.len(),
                crate::codec::reads_as(bytes@, views(events@)),
                1 <= i,
                forall|a: int, b: int|
                    0 <= a < b < i && b < n ==> events@[a].tid < events@[b].tid,
            decreases n - i,
        {
            if events[i - 1].tid >= events[i].tid {
                proof {
                    let v = views(events@);
                    assert(v[i - 1].tid >= v[i as int].tid);
                    assert(crate::codec::reads_as(bytes@, v));
                    assert(!sorted_by_tid(v));
                }
                return None;
            }
            proof {
                assert forall|a: int, b: int| 0 <= a < b < i + 1 && b < n implies events@[a].tid
                    < events@[b].tid by {
                    if b == i && a < i - 1 {
                        assert(events@[a].tid < events@[i - 1].tid);
                    }
                }
            }
            i = i + 1;
        }
        let r = SSTable { epoch, events };
        proof {
            assert(r@.events == views(events@));
        }
        Some(r)
    }

    /// The table's epoch.
    pub fn epoch(&self) -> (r: u128)
        ensures
            r == self@.epoch,
    {
        self.epoch
    }

    /// The bytes of the table's file: the records of its events in order.
    pub fn to_bytes(&self) -> (r: Vec<u8>)
        ensures
            r@ == records(self@.events),
    {
        let mut out: Vec<u8> = Vec::new();
        let mut i: usize = 0;
        while i < self.events.len()
            invariant
                i <= self.events.len(),
                out@ == records(views(self.events@.subrange(0, i as int))),
            decreases self.events.len() - i,
        {
            encode_record(&self.events[i], &mut out);
            proof {
                let pre = views(self.events@.subrange(0, i as int));
                let nxt = views(self.events@.subrange(0, i + 1));
                assert(nxt.drop_last() =~= pre);
                assert(nxt.last() == self.events@[i as int]@);
            }
            i = i + 1;
        }
        assert(self.events@.subrange(0, self.events.len() as int) =~= self.events@);
        out
    }

    /// The number of events.
    pub fn len(&self) -> (r: usize)
        ensures
            r == self@.events.len(),
    {
        self.events.len()
    }

    /// A copy of the events, in order.
    pub fn events(&self) -> (r: Vec<Event>)
        ensures
            views(r@) == self@.events,
    {
        let mut out: Vec<Event> = Vec::new();
        let mut i: usize = 0;
        while i < self.events.len()
            invariant
                i <= self.events.len(),
                views(out@) == views(self.events@.subrange(0, i as int)),
            decreases self.events.len() - i,
        {
            let ghost prev = out@;
            out.push(self.events[i].duplicate());
            proof {
                assert(views(out@) =~= views(prev).push(self.events@[i as int]@));
                assert(views(self.events@.subrange(0, i + 1)) =~= views(
                    self.events@.subrange(0, i as int),
                ).push(self.events@[i as int]@));
            }
            i = i + 1;
        }
        assert(self.events@.subrange(0, self.events.len() as int) =~= self.events@);
        out
    }

    /// Whether the table holds an event with this id.
    pub fn contains(&self, tid: u128) -> (r: bool)
        ensures
            r == has_tid(self@.events, tid),
    {
        let mut i: usize = 0;
        while i < self.events.len()
            invariant
                i <= self.events.len(),
                forall|k: int| 0 <= k < i ==> self.events@[k].tid != tid,
            decreases self.events.len() - i,
        {
            if self.events[i].tid == tid {
                assert(self@.events[i as int].tid == tid);
                return true;
            }
            i = i + 1;
        }
        proof {
            if has_tid(self@.events, tid) {
                let k = choose|k: int| 0 <= k < self@.events.len() && #[trigger] self@.events[k].tid
                    == tid;
                assert(self.events@[k]@.tid == tid);
            }
        }
        false
    }

    /// The event with this id.
    pub fn get(&self, tid: u128) -> (r: Option<Event>)
        requires
            self.wf(),
        ensures
            r is Some <==> has_tid(self@.events, tid),
            r is Some ==> r->Some_0@ == event_of(self@.events, tid),
    {
        let mut i: usize = 0;
        while i < self.events.len()
            invariant
                self.wf(),
                i <= self.events.len(),
                forall|k: int| 0 <= k < i ==> self.events@[k].tid != tid,
            decreases self.events.len() - i,
        {
            if self.events[i].tid == tid {
                proof {
                    assert(self@.events[i as int] == self.events@[i as int]@);
                    lemma_event_of(self@.events, i as int);
                }
                return Some(self.events[i].duplicate());
            }
            i = i + 1;
        }
        proof {
            if has_tid(self@.events, tid) {
                let k = choose|k: int| 0 <= k < self@.events.len() && #[trigger] self@.events[k].tid
                    == tid;
                assert(self.events@[k]@.tid == tid);
            }
        }
        None
    }

    /// Merges two tables. Both are read in id order; an id held by one table
    /// only keeps its event; an id held by both keeps the event of the table
    /// with the larger epoch (`other` on a tie). Deletes win: an id whose kept
    /// event is a delete leaves no event at all. Since each table holds one
    /// event per id, this is the same as collecting the ids of the deletes
    /// emitted and dropping every event of those ids at the end. The merged
    /// table takes the larger of the two epochs.
    #[verifier::rlimit(60)]
    pub fn merge(self, other: SSTable) -> (r: SSTable)
        requires
            self.wf(),
            other.wf(),
        ensures
            r.wf(),
            r@.epoch == (if self@.epoch > other@.epoch {
                self@.epoch
            } else {
                other@.epoch
            }),
            is_merge(r@.events, self@.events, other@.events, self@.epoch > other@.epoch),
    {
        let ghost av = self@.events;
        let ghost bv = other@.events;
        let a_newer = self.epoch > other.epoch;
        let a = &self.events;
        let b = &other.events;
        let mut out: Vec<Event> = Vec::new();
        let mut i: usize = 0;
        let mut j: usize = 0;
        while i < a.len() || j < b.len()
            invariant
                av == views(a@),
                bv == views(b@),
                sorted_by_tid(av),
                sorted_by_tid(bv),
                forall|k: int| 0 <= k < av.len() ==> sized(#[trigger] av[k]),
                forall|k: int| 0 <= k < bv.len() ==> sized(#[trigger] bv[k]),
                a_newer == (self@.epoch > other@.epoch),
                i <= a.len(),
                j <= b.len(),
                sorted_by_tid(views(out@)),
                forall|k: int| 0 <= k < out@.len() ==> sized(#[trigger] views(out@)[k]),
                forall|k: int|
                    0 <= k < out@.len() ==> survives(av, bv, a_newer, #[trigger] views(out@)[k].tid)
                        && views(out@)[k] == chosen(av, bv, a_newer, views(out@)[k].tid),
                forall|k: int|
                    0 <= k < out@.len() ==> (i < a.len() ==> #[trigger] views(out@)[k].tid
                        < av[i as int].tid) && (j < b.len() ==> views(out@)[k].tid < bv[j as int].tid),
                forall|k: int| 0 <= k < i && j < b.len() ==> #[trigger] av[k].tid < bv[j as int].tid,
                forall|k: int| 0 <= k < j && i < a.len() ==> #[trigger] bv[k].tid < av[i as int].tid,
                forall|t: u128|
                    survives(av, bv, a_newer, t) && (has_tid(av.subrange(0, i as int), t) || has_tid(
                        bv.subrange(0, j as int),
                        t,
                    )) ==> has_tid(views(out@), t),
            decreases a.len() - i + b.len() - j,
        {
            let ghost prev = views(out@);
            let ghost pi = i;
            let ghost pj = j;
            let take_a: bool;
            let take_b: bool;
            if i < a.len() && (j >= b.len() || a[i].tid < b[j].tid) {
                take_a = true;
                take_b = false;
            } else if j < b.len() && (i >= a.len() || b[j].tid < a[i].tid) {
                take_a = false;
                take_b = true;
            } else {
                take_a = a_newer;
                take_b = !a_newer;
            }
            let both = i < a.len() && j < b.len() && a[i].tid == b[j].tid;
            let cand: &Event = if take_a {
                &a[i]
            } else {
                &b[j]
            };
            let ghost t = cand.tid;
            proof {
                assert(i < a.len() ==> av[i as int] == a@[i as int]@);
                assert(j < b.len() ==> bv[j as int] == b@[j as int]@);
                if i < a.len() {
                    lemma_event_of(av, i as int);
                }
                if j < b.len() {
                    lemma_event_of(bv, j as int);
                }
                if take_a && !both {
                    assert(!has_tid(bv, t)) by {
                        if has_tid(bv, t) {
                            let k = choose|k: int| 0 <= k < bv.len() && #[trigger] bv[k].tid == t;
                            if k < j {
                                assert(bv[k].tid < av[i as int].tid);
                            } else if k > j {
                                assert(bv[j as int].tid < bv[k].tid);
                            }
                        }
                    }
                }
                if take_b && !both {
                    assert(!has_tid(av, t)) by {
                        if has_tid(av, t) {
                            let k = choose|k: int| 0 <= k < av.len() && #[trigger] av[k].tid == t;
                            if k < i {
                                assert(av[k].tid < bv[j as int].tid);
                            } else if k > i {
                                assert(av[i as int].tid < av[k].tid);
                            }
                        }
                    }
                }
                assert(cand@ == chosen(av, bv, a_newer, t));
            }
            if cand.action != Action::Delete {
                out.push(cand.duplicate());
                proof {
                    assert(views(out@) =~= prev.push(cand@));
                    lemma_event_sized(*cand);
                }
            }
            if take_a || both {
                i = i + 1;
            }
            if take_b || both {
                j = j + 1;
            }
            proof {
                let now = views(out@);
                assert(forall|k: int| 0 <= k < prev.len() ==> now[k] == prev[k]);
                assert forall|k: int| 0 <= k < now.len() implies (i < a.len() ==> #[trigger] now[k].tid
                    < av[i as int].tid) && (j < b.len() ==> now[k].tid < bv[j as int].tid) by {
                    if k < prev.len() {
                        if i < a.len() && i > pi {
                            assert(av[pi as int].tid < av[i as int].tid);
                        }
                        if j < b.len() && j > pj {
                            assert(bv[pj as int].tid < bv[j as int].tid);
                        }
                    } else {
                        if i < a.len() && i > pi {
                            assert(av[pi as int].tid < av[i as int].tid);
                        }
                        if j < b.len() && j > pj {
                            assert(bv[pj as int].tid < bv[j as int].tid);
                        }
                    }
                }
                assert forall|k: int| 0 <= k < i && j < b.len() implies #[trigger] av[k].tid
                    < bv[j as int].tid by {
                    if j > pj && pj < b.len() {
                        assert(bv[pj as int].tid < bv[j as int].tid);
                    }
                    if k < pi && pj < b.len() {
                        assert(av[k].tid < bv[pj as int].tid);
                    }
                }
                assert forall|k: int| 0 <= k < j && i < a.len() implies #[trigger] bv[k].tid
                    < av[i as int].tid by {
                    if i > pi && pi < a.len() {
                        assert(av[pi as int].tid < av[i as int].tid);
                    }
                    if k < pj && pi < a.len() {
                        assert(bv[k].tid < av[pi as int].tid);
                    }
                }
                assert forall|x: u128|
                    survives(av, bv, a_newer, x) && (has_tid(av.subrange(0, i as int), x) || has_tid(
                        bv.subrange(0, j as int),
                        x,
                    )) implies has_tid(now, x) by {
                    if has_tid(av.subrange(0, i as int), x) {
                        let k = choose|k: int|
                            0 <= k < i && #[trigger] av.subrange(0, i as int)[k].tid == x;
                        if k < pi {
                            assert(av.subrange(0, pi as int)[k].tid == x);
                            let c = choose|c: int| 0 <= c < prev.len() && #[trigger] prev[c].tid == x;
                            assert(now[c].tid == x);
                        } else {
                            assert(now[prev.len() as int].tid == x);
                        }
                    } else {
                        let k = choose|k: int|
                            0 <= k < j && #[trigger] bv.subrange(0, j as int)[k].tid == x;
                        if k < pj {
                            assert(bv.subrange(0, pj as int)[k].tid == x);
                            let c = choose|c: int| 0 <= c < prev.len() && #[trigger] prev[c].tid == x;
                            assert(now[c].tid == x);
                        } else {
                            assert(now[prev.len() as int].tid == x);
                        }
                    }
                }
            }
        }
        let epoch = if a_newer {
            self.epoch
        } else {
            other.epoch
        };
        let r = SSTable { epoch, events: out };
        proof {
            assert(av.subrange(0, i as int) =~= av);
            assert(bv.subrange(0, j as int) =~= bv);
        }
        r
    }
}

/// `s` holds a delete for id `t`.
pub open spec fn deletes(s: Seq<EventView>, t: u128) -> bool {
    has_tid(s, t) && event_of(s, t).action == Action::Delete
}

/// What a merge holds: every id of either table that neither table deletes,
/// with the newer table's event where both hold the id. This is stated for
/// tables where no id that the older table deletes is written again in the
/// newer one: there the newer write is kept.
pub proof fn lemma_merge_contents(
    r: Seq<EventView>,
    a: Seq<EventView>,
    b: Seq<EventView>,
    a_newer: bool,
)
    requires
        is_merge(r, a, b, a_newer),
        forall|t: u128|
            has_tid(a, t) && has_tid(b, t) ==> (deletes(a, t) || deletes(b, t) ==> #[trigger] chosen(
                a,
                b,
                a_newer,
                t,
            ).action == Action::Delete),
    ensures
        forall|t: u128|
            #[trigger] has_tid(r, t) <==> ((has_tid(a, t) || has_tid(b, t)) && !deletes(a, t)
                && !deletes(b, t)),
        forall|t: u128|
            has_tid(r, t) ==> #[trigger] event_of(r, t) == (if has_tid(a, t) && has_tid(b, t) {
                if a_newer {
                    event_of(a, t)
                } else {
                    event_of(b, t)
                }
            } else if has_tid(a, t) {
                event_of(a, t)
            } else {
                event_of(b, t)
            }),
{
    assert forall|t: u128| #[trigger] has_tid(r, t) implies survives(a, b, a_newer, t) && event_of(
        r,
        t,
    ) == chosen(a, b, a_newer, t) by {
        let k = choose|k: int| 0 <= k < r.len() && #[trigger] r[k].tid == t;
        lemma_event_of(r, k);
    }
    assert forall|t: u128|
        #[trigger] has_tid(r, t) <==> ((has_tid(a, t) || has_tid(b, t)) && !deletes(a, t)
            && !deletes(b, t)) by {
        if (has_tid(a, t) || has_tid(b, t)) && !deletes(a, t) && !deletes(b, t) {
            assert(survives(a, b, a_newer, t));
        }
        if has_tid(r, t) {
            if has_tid(a, t) && has_tid(b, t) {
                assert(chosen(a, b, a_newer, t).action != Action::Delete);
            }
        }
    }
}

} // verus!

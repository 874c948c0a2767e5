//! The memtable: the latest event of each transaction id, in id order.
use crate::event::{Action, Event, EventView, estimated_size};
use skiplist::OrderedSkipList;
use std::collections::HashMap;
use vstd::prelude::*;

verus! {

broadcast use vstd::std_specs::hash::group_hash_axioms;

#[verifier::external_type_specification]
#[verifier::external_body]
#[verifier::reject_recursive_types(T)]
pub struct ExOrderedSkipList<T>(OrderedSkipList<T>);

/// The values held by a skip list, in its order.
pub uninterp spec fn skip_items(l: OrderedSkipList<u128>) -> Seq<u128>;

/// Relies on `OrderedSkipList::new`: an empty list.
#[verifier::external_body]
fn ids_new() -> (r: OrderedSkipList<u128>)
    ensures
        skip_items(r) == Seq::<u128>::empty(),
{
    OrderedSkipList::new()
}

/// Relies on `OrderedSkipList::insert`: the value goes in at one place, the
/// others stay in their order.
#[verifier::external_body]
fn ids_insert(l: &mut OrderedSkipList<u128>, x: u128)
    ensures
        exists|i: int|
            0 <= i <= skip_items(*old(l)).len() && skip_items(*final(l)) == skip_items(
                *old(l),
            ).insert(i, x),
{
    l.insert(x)
}

/// Relies on `OrderedSkipList::contains`.
#[verifier::external_body]
fn ids_contains(l: &OrderedSkipList<u128>, x: u128) -> (r: bool)
    ensures
        r == skip_items(*l).contains(x),
{
    l.contains(&x)
}

/// Relies on `OrderedSkipList::iter`: the values in ascending order.
#[verifier::external_body]
fn ids_to_vec(l: &OrderedSkipList<u128>) -> (r: Vec<u128>)
    ensures
        r@ == skip_items(*l),
        forall|i: int, j: int| 0 <= i < j < r@.len() ==> r@[i] <= r@[j],
{
    l.iter().copied().collect()
}

/// The ids in strictly ascending order.
pub open spec fn ascending(s: Seq<u128>) -> bool {
    forall|i: int, j: int| 0 <= i < j < s.len() ==> s[i] < s[j]
}

/// The events of a map in ascending id order.
pub open spec fn in_id_order(r: Seq<EventView>, m: Map<u128, EventView>) -> bool {
    &&& r.len() == m.dom().len()
    &&& forall|i: int, j: int| 0 <= i < j < r.len() ==> r[i].tid < r[j].tid
    &&& forall|i: int| 0 <= i < r.len() ==> m.contains_key(#[trigger] r[i].tid) && m[r[i].tid]
        == r[i]
}

pub open spec fn add_size(a: nat, b: nat) -> nat {
    if a + b > usize::MAX {
        usize::MAX as nat
    } else {
        a + b
    }
}

pub open spec fn sub_size(a: nat, b: nat) -> nat {
    if a >= b {
        (a - b) as nat
    } else {
        0
    }
}

pub open spec fn size_of_event(e: EventView) -> nat {
    if estimated_size(e) > usize::MAX {
        usize::MAX as nat
    } else {
        estimated_size(e)
    }
}

/// The ordered in-memory table of recent events, one per transaction id.
pub struct MemTable {
    identifiers: OrderedSkipList<u128>,
    entries: HashMap<u128, Event>,
    size: usize,
}

impl View for MemTable {
    type V = Map<u128, EventView>;

    closed spec fn view(&self) -> Map<u128, EventView> {
        self.entries@.map_values(|e: Event| e@)
    }
}

impl MemTable {
    pub closed spec fn wf(&self) -> bool {
        let ids = skip_items(self.identifiers);
        &&& forall|i: int, j: int| 0 <= i < j < ids.len() ==> ids[i] != ids[j]
        &&& forall|x: u128| ids.contains(x) <==> self.entries@.contains_key(x)
        &&& forall|x: u128| #[trigger]
            self.entries@.contains_key(x) ==> self.entries@[x].tid == x
        &&& self.entries@.dom().finite()
    }

    /// The byte count the table reports.
    pub closed spec fn spec_size(&self) -> nat {
        self.size as nat
    }

    pub proof fn lemma_wf(&self)
        requires
            self.wf(),
        ensures
            self@.dom().finite(),
            forall|x: u128| #[trigger] self@.contains_key(x) ==> self@[x].tid == x,
    {
        assert(self@.dom() =~= self.entries@.dom());
    }

    /// An empty table.
    pub fn new() -> (r: MemTable)
        ensures
            r.wf(),
            r@ == Map::<u128, EventView>::empty(),
            r.spec_size() == 0,
    {
        let r = MemTable { identifiers: ids_new(), entries: HashMap::new(), size: 0 };
        assert(r@ =~= Map::<u128, EventView>::empty());
        r
    }

    /// Whether an event with this id is held.
    pub fn contains(&self, tid: u128) -> (r: bool)
        requires
            self.wf(),
        ensures
            r == self@.contains_key(tid),
    {
        ids_contains(&self.identifiers, tid)
    }

    /// The estimated bytes of the events inserted, saturating at `usize::MAX`.
    pub fn size(&self) -> (r: usize)
        ensures
            r == self.spec_size(),
    {
        self.size
    }

    /// Inserts an event; it replaces the one held for the same id. The byte
    /// count drops the replaced event's size and adds the new one's.
    pub fn insert(&mut self, event: Event)
        requires
            old(self).wf(),
        ensures
            final(self).wf(),
            final(self)@ == old(self)@.insert(event.tid, event@),
            final(self).spec_size() == add_size(
                (if old(self)@.contains_key(event.tid) {
                    sub_size(old(self).spec_size(), size_of_event(old(self)@[event.tid]))
                } else {
                    old(self).spec_size()
                }),
                size_of_event(event@),
            ),
    {
        let id = event.tid;
        let sz = event.size();
        if !ids_contains(&self.identifiers, id) {
            let ghost before = skip_items(self.identifiers);
            ids_insert(&mut self.identifiers, id);
            proof {
                let after = skip_items(self.identifiers);
                let i = choose|i: int| 0 <= i <= before.len() && after == before.insert(i, id);
                assert forall|a: int, b: int| 0 <= a < b < after.len() implies after[a]
                    != after[b] by {
                    if a < i && b < i {
                    } else if a < i && b == i {
                        assert(before.contains(before[a]));
                    } else if a < i {
                        assert(after[b] == before[b - 1]);
                    } else if a == i {
                        assert(after[b] == before[b - 1]);
                        assert(before.contains(before[b - 1]));
                    } else {
                        assert(after[a] == before[a - 1]);
                        assert(after[b] == before[b - 1]);
                    }
                }
                assert forall|x: u128| after.contains(x) <==> (before.contains(x) || x == id) by {
                    if after.contains(x) {
                        let k = choose|k: int| 0 <= k < after.len() && after[k] == x;
                        if k < i {
                            assert(before[k] == x);
                        } else if k > i {
                            assert(before[k - 1] == x);
                        }
                    }
                    if before.contains(x) {
                        let k = choose|k: int| 0 <= k < before.len() && before[k] == x;
                        if k < i {
                            assert(after[k] == x);
                        } else {
                            assert(after[k + 1] == x);
                        }
                    }
                    if x == id {
                        assert(after[i] == x);
                    }
                }
            }
        }
        let old_sz: usize = match self.entries.get(&id) {
            Some(prev) => prev.size(),
            None => 0,
        };
        let base: usize = if self.size >= old_sz {
            self.size - old_sz
        } else {
            0
        };
        self.size = if base > usize::MAX - sz {
            usize::MAX
        } else {
            base + sz
        };
        self.entries.insert(id, event);
        proof {
            assert(self@ =~= old(self)@.insert(id, event@));
        }
    }

    /// A copy of the event held for this id.
    pub fn event(&self, tid: u128) -> (r: Option<Event>)
        requires
            self.wf(),
        ensures
            r is Some <==> self@.contains_key(tid),
            r is Some ==> r->Some_0@ == self@[tid],
    {
        match self.entries.get(&tid) {
            Some(e) => Some(e.duplicate()),
            None => None,
        }
    }

    /// The events in ascending id order.
    pub fn events(&self) -> (r: Vec<Event>)
        requires
            self.wf(),
        ensures
            in_id_order(r@.map_values(|e: Event| e@), self@),
    {
        let ids = ids_to_vec(&self.identifiers);
        let mut out: Vec<Event> = Vec::new();
        let mut i: usize = 0;
        while i < ids.len()
            invariant
                self.wf(),
                ids@ == skip_items(self.identifiers),
                forall|a: int, b: int| 0 <= a < b < ids@.len() ==> ids@[a] <= ids@[b],
                i <= ids.len(),
                out@.len() == i,
                forall|k: int| 0 <= k < i ==> #[trigger] out@[k]@ == self@[ids@[k]] && out@[k].tid
                    == ids@[k],
            decreases ids.len() - i,
        {
            let id = ids[i];
            assert(skip_items(self.identifiers).contains(id));
            match self.entries.get(&id) {
                Some(e) => {
                    let ghost prev = out@;
                    out.push(e.duplicate());
                    proof {
                        assert(self@[id] == self.entries@[id]@);
                        assert forall|k: int| 0 <= k < i + 1 implies #[trigger] out@[k]@
                            == self@[ids@[k]] && out@[k].tid == ids@[k] by {
                            if k < i {
                                assert(out@[k] == prev[k]);
                            }
                        }
                    }
                },
                None => {
                    assert(false);
                },
            }
            i = i + 1;
        }
        proof {
            let r = out@.map_values(|e: Event| e@);
            let ids_s = ids@;
            assert forall|a: int, b: int| 0 <= a < b < r.len() implies r[a].tid < r[b].tid by {
                assert(out@[a].tid == ids_s[a]);
                assert(out@[b].tid == ids_s[b]);
            }
            assert(ids_s.to_set() =~= self@.dom()) by {
                assert forall|x: u128| ids_s.to_set().contains(x) <==> self@.dom().contains(x) by {
                    assert(ids_s.to_set().contains(x) <==> ids_s.contains(x));
                }
            }
            assert(ids_s.no_duplicates());
            ids_s.unique_seq_to_set();
            assert forall|k: int| 0 <= k < r.len() implies self@.contains_key(#[trigger] r[k].tid)
                && self@[r[k].tid] == r[k] by {
                assert(out@[k].tid == ids_s[k]);
                assert(ids_s.contains(ids_s[k]));
            }
        }
        out
    }

    /// The write events, in ascending id order.
    pub fn writes(&self) -> (r: Vec<Event>)
        requires
            self.wf(),
        ensures
            forall|i: int, j: int| 0 <= i < j < r@.len() ==> r@[i].tid < r@[j].tid,
            forall|i: int|
                0 <= i < r@.len() ==> self@.contains_key(#[trigger] r@[i].tid) && self@[r@[i].tid]
                    == r@[i]@,
            forall|i: int| 0 <= i < r@.len() ==> (#[trigger] r@[i]).action == Action::Write,
            forall|x: u128|
                self@.contains_key(x) && self@[x].action == Action::Write ==> exists|i: int|
                    0 <= i < r@.len() && #[trigger] r@[i].tid == x,
    {
        proof {
            self.lemma_wf();
        }
        let all = self.events();
        let ghost av = all@.map_values(|e: Event| e@);
        let mut out: Vec<Event> = Vec::new();
        let mut i: usize = 0;
        while i < all.len()
            invariant
                self.wf(),
                av == all@.map_values(|e: Event| e@),
                in_id_order(av, self@),
                i <= all.len(),
                forall|a: int, b: int| 0 <= a < b < out@.len() ==> out@[a].tid < out@[b].tid,
                forall|a: int, k: int|
                    0 <= a < out@.len() && i <= k < av.len() ==> #[trigger] out@[a].tid
                        < #[trigger] av[k].tid,
                forall|a: int|
                    0 <= a < out@.len() ==> self@.contains_key(#[trigger] out@[a].tid)
                        && self@[out@[a].tid] == out@[a]@,
                forall|a: int| 0 <= a < out@.len() ==> (#[trigger] out@[a]).action == Action::Write,
                forall|k: int|
                    0 <= k < i && av[k].action == Action::Write ==> exists|a: int|
                        0 <= a < out@.len() && #[trigger] out@[a].tid == av[k].tid,
            decreases all.len() - i,
        {
            if all[i].action == Action::Write {
                let ghost prev = out@;
                proof {
                    assert(av[i as int] == all@[i as int]@);
                }
                out.push(all[i].duplicate());
                proof {
                    assert forall|k: int| 0 <= k < i + 1 && av[k].action == Action::Write implies exists|a: int|
                        0 <= a < out@.len() && #[trigger] out@[a].tid == av[k].tid by {
                        if k == i {
                            assert(out@[prev.len() as int].tid == av[k].tid);
                        } else {
                            let a = choose|a: int| 0 <= a < prev.len() && #[trigger] prev[a].tid == av[k].tid;
                            assert(out@[a].tid == av[k].tid);
                        }
                    }
                    assert forall|a: int, k: int|
                        0 <= a < out@.len() && i + 1 <= k < av.len() implies #[trigger] out@[a].tid
                        < #[trigger] av[k].tid by {
                        if a == prev.len() {
                            assert(av[i as int].tid < av[k].tid);
                        } else {
                            assert(out@[a] == prev[a]);
                        }
                    }
                    assert forall|a: int, b: int| 0 <= a < b < out@.len() implies out@[a].tid
                        < out@[b].tid by {
                        if b == prev.len() {
                            assert(out@[a].tid < av[i as int].tid);
                        }
                    }
                    assert(self@.contains_key(av[i as int].tid));
                }
            }
            i = i + 1;
        }
        proof {
            assert forall|x: u128|
                self@.contains_key(x) && self@[x].action == Action::Write implies exists|a: int|
                    0 <= a < out@.len() && #[trigger] out@[a].tid == x by {
                lemma_in_order_covers(av, self@, x);
            }
            assert forall|a: int| 0 <= a < out@.len() implies self@.contains_key(
                #[trigger] out@[a].tid,
            ) && self@[out@[a].tid] == out@[a]@ by {
                assert(out@[a]@.tid == out@[a].tid);
            }
        }
        out
    }
}

/// Every id of the map stands in a sequence that lists it in id order.
pub proof fn lemma_in_order_covers(r: Seq<EventView>, m: Map<u128, EventView>, x: u128)
    requires
        in_id_order(r, m),
        m.dom().finite(),
        m.contains_key(x),
    ensures
        exists|k: int| 0 <= k < r.len() && #[trigger] r[k].tid == x,
{
    let ids = r.map_values(|e: EventView| e.tid);
    assert forall|a: int, b: int| 0 <= a < b < ids.len() implies ids[a] != ids[b] by {
        assert(r[a].tid < r[b].tid);
    }
    assert(ids.no_duplicates());
    ids.unique_seq_to_set();
    assert(ids.to_set().subset_of(m.dom())) by {
        assert forall|y: u128| ids.to_set().contains(y) implies m.dom().contains(y) by {
            assert(ids.contains(y));
            let k = choose|k: int| 0 <= k < ids.len() && ids[k] == y;
            assert(m.contains_key(r[k].tid));
        }
    }
    if !ids.to_set().contains(x) {
        vstd::set_lib::lemma_len_subset(ids.to_set().insert(x), m.dom());
        assert(false);
    }
    assert(ids.contains(x));
    let k = choose|k: int| 0 <= k < ids.len() && ids[k] == x;
    assert(r[k].tid == x);
}

} // verus!

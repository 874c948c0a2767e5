use vstd::prelude::*;

verus! {

/// What an event does to its key.
#[derive(Clone, Copy, Debug, PartialEq, Eq, Structural)]
pub enum Action {
    Read,
    Write,
    Delete,
}

impl Action {
    /// The digit that stands for the action in the record format.
    pub open spec fn code(self) -> nat {
        match self {
            Action::Read => 0,
            Action::Write => 1,
            Action::Delete => 2,
        }
    }
}

/// The mathematical value of an event.
pub struct EventView {
    pub seq: u64,
    pub tid: u128,
    pub key: Seq<u8>,
    pub action: Action,
    pub payload: Option<Seq<u8>>,
}

/// An immutable record: the sequence number issued for the write, the
/// transaction id of its key, the key itself, the action and an optional
/// payload (only writes carry one).
pub struct Event {
    pub seq: u64,
    pub tid: u128,
    pub key: Vec<u8>,
    pub action: Action,
    pub payload: Option<Vec<u8>>,
}

pub open spec fn opt_view(p: Option<Vec<u8>>) -> Option<Seq<u8>> {
    match p {
        Some(v) => Some(v@),
        None => None,
    }
}

/// Bytes counted for an event in the memtable's size: a 16-byte time slot,
/// a 16-byte id, a 2-byte action and the payload rounded up to 8 bytes
/// (8 bytes when there is none).
pub open spec fn estimated_size(e: EventView) -> nat {
    let p: nat = match e.payload {
        Some(p) => p.len(),
        None => 8,
    };
    34 + round_up8(p)
}

pub open spec fn round_up8(n: nat) -> nat {
    if n % 8 == 0 {
        n
    } else {
        n + (8 - n % 8) as nat
    }
}

impl View for Event {
    type V = EventView;

    open spec fn view(&self) -> EventView {
        EventView {
            seq: self.seq,
            tid: self.tid,
            key: self.key@,
            action: self.action,
            payload: opt_view(self.payload),
        }
    }
}

/// Relies on `uuid::Uuid::new_v4`: a random version-4 id, as an integer.
#[verifier::external_body]
pub(crate) fn new_tid() -> (r: u128) {
    uuid::Uuid::new_v4().as_u128()
}

pub fn copy_bytes(v: &Vec<u8>) -> (r: Vec<u8>)
    ensures
        r@ == v@,
{
    let mut r: Vec<u8> = Vec::with_capacity(v.len());
    let mut i: usize = 0;
    while i < v.len()
        invariant
            i <= v.len(),
            r@ == v@.subrange(0, i as int),
        decreases v.len() - i,
    {
        r.push(v[i]);
        i = i + 1;
    }
    assert(r@ =~= v@);
    r
}

pub fn copy_opt_bytes(p: &Option<Vec<u8>>) -> (r: Option<Vec<u8>>)
    ensures
        opt_view(r) == opt_view(*p),
{
    match p {
        Some(v) => Some(copy_bytes(v)),
        None => None,
    }
}

pub fn bytes_equal(a: &Vec<u8>, b: &Vec<u8>) -> (r: bool)
    ensures
        r == (a@ == b@),
{
    if a.len() != b.len() {
        return false;
    }
    let mut i: usize = 0;
    while i < a.len()
        invariant
            i <= a.len(),
            a.len() == b.len(),
            a@.subrange(0, i as int) == b@.subrange(0, i as int),
        decreases a.len() - i,
    {
        if a[i] != b[i] {
            assert(a@[i as int] != b@[i as int]);
            return false;
        }
        assert(a@.subrange(0, i + 1) =~= a@.subrange(0, i as int).push(a@[i as int]));
        assert(b@.subrange(0, i + 1) =~= b@.subrange(0, i as int).push(b@[i as int]));
        i = i + 1;
    }
    assert(a@ =~= a@.subrange(0, a.len() as int));
    assert(b@ =~= b@.subrange(0, b.len() as int));
    true
}

impl Event {
    /// An event with the given id and no payload.
    pub fn with_id(tid: u128, key: Vec<u8>, action: Action, seq: u64) -> (r: Event)
        ensures
            r@ == (EventView { seq, tid, key: key@, action, payload: None }),
    {
        Event { seq, tid, key, action, payload: None }
    }

    /// An event with a fresh random id and no payload.
    pub fn new(key: Vec<u8>, action: Action, seq: u64) -> (r: Event)
        ensures
            r@ == (EventView { seq, tid: r.tid, key: key@, action, payload: None }),
    {
        Event { seq, tid: new_tid(), key, action, payload: None }
    }

    /// The event's transaction id.
    pub fn transaction_id(&self) -> (r: u128)
        ensures
            r == self.tid,
    {
        self.tid
    }

    /// The event's action.
    pub fn action(&self) -> (r: Action)
        ensures
            r == self.action,
    {
        self.action
    }

    /// A copy of the payload.
    pub fn payload(&self) -> (r: Option<Vec<u8>>)
        ensures
            opt_view(r) == opt_view(self.payload),
    {
        copy_opt_bytes(&self.payload)
    }

    /// Attaches a payload. Only a write takes one, and only once: on any
    /// other event, or once a payload is there, the event is left as it is.
    pub fn set_payload(&mut self, payload: Option<Vec<u8>>)
        ensures
            (old(self).action == Action::Write && old(self).payload is None) ==> final(self)@
                == (EventView { payload: opt_view(payload), ..old(self)@ }),
            !(old(self).action == Action::Write && old(self).payload is None) ==> final(self)@
                == old(self)@,
    {
        if self.action == Action::Write && self.payload.is_none() {
            self.payload = payload;
        }
    }

    /// A copy of the event.
    pub fn duplicate(&self) -> (r: Event)
        ensures
            r@ == self@,
    {
        Event {
            seq: self.seq,
            tid: self.tid,
            key: copy_bytes(&self.key),
            action: self.action,
            payload: copy_opt_bytes(&self.payload),
        }
    }

    /// The estimated number of bytes the event occupies in memory,
    /// saturating at `usize::MAX`.
    pub fn size(&self) -> (r: usize)
        ensures
            r == (if estimated_size(self@) > usize::MAX {
                usize::MAX as nat
            } else {
                estimated_size(self@)
            }),
    {
        let p: usize = match &self.payload {
            Some(v) => v.len(),
            None => 8,
        };
        let wide: u128 = p as u128;
        let padded: u128 = if wide % 8 == 0 {
            wide
        } else {
            wide + (8 - wide % 8)
        };
        let total: u128 = 34 + padded;
        if total > usize::MAX as u128 {
            usize::MAX
        } else {
            total as usize
        }
    }
}

} // verus!

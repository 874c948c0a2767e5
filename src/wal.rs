//! The write-ahead log: the records of the events logged since the log was
//! opened, as they stand in its file.
use crate::codec::{decode_all, encode_record, reads_as, record, views};
use crate::event::{Action, Event, EventView};
use vstd::prelude::*;

verus! {

/// The content of a log file, named `rdeebee-<epoch>.wal`.
pub struct Wal {
    epoch: u128,
    bytes: Vec<u8>,
}

pub struct WalView {
    pub epoch: u128,
    pub bytes: Seq<u8>,
}

impl View for Wal {
    type V = WalView;

    closed spec fn view(&self) -> WalView {
        WalView { epoch: self.epoch, bytes: self.bytes@ }
    }
}

impl Wal {
    /// An empty log opened at `epoch`.
    pub fn new(epoch: u128) -> (r: Wal)
        ensures
            r@ == (WalView { epoch, bytes: Seq::empty() }),
    {
        Wal { epoch, bytes: Vec::new() }
    }

    /// A log over the bytes of an existing file.
    pub fn from_bytes(epoch: u128, bytes: Vec<u8>) -> (r: Wal)
        ensures
            r@ == (WalView { epoch, bytes: bytes@ }),
    {
        Wal { epoch, bytes }
    }

    /// The log's epoch.
    pub fn epoch(&self) -> (r: u128)
        ensures
            r == self@.epoch,
    {
        self.epoch
    }

    /// The bytes of the log.
    pub fn bytes(&self) -> (r: &Vec<u8>)
        ensures
            r@ == self@.bytes,
    {
        &self.bytes
    }

    /// Appends the record of an event.
    pub fn add_event(&mut self, event: &Event)
        ensures
            final(self)@ == (WalView { epoch: old(self)@.epoch, bytes: old(self)@.bytes + record(event@) }),
    {
        encode_record(event, &mut self.bytes);
    }

    /// Appends a delete of the key with id `tid`.
    pub fn delete_event(&mut self, tid: u128, key: Vec<u8>, seq: u64)
        ensures
            final(self)@ == (WalView {
                epoch: old(self)@.epoch,
                bytes: old(self)@.bytes + record(
                    EventView { seq, tid, key: key@, action: Action::Delete, payload: None },
                ),
            }),
    {
        let event = Event::with_id(tid, key, Action::Delete, seq);
        self.add_event(&event);
    }

    /// The events of the log, in the order they were logged; a record cut
    /// short at the end is left out.
    pub fn events(&self) -> (r: Vec<Event>)
        ensures
            reads_as(self@.bytes, views(r@)),
    {
        decode_all(&self.bytes)
    }
}

} // verus!

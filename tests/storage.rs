use rdeebee::codec::{decode_all, decode_record, encode, TERMINATOR};
use rdeebee::event::{Action, Event};
use rdeebee::memtable::MemTable;
use rdeebee::recovery::Recovery;
use rdeebee::sstable::SSTable;
use rdeebee::wal::Wal;

fn event(tid: u128, key: &str, action: Action, seq: u64, payload: Option<&[u8]>) -> Event {
    let mut e = Event::with_id(tid, key.as_bytes().to_vec(), action, seq);
    if let Some(p) = payload {
        e.set_payload(Some(p.to_vec()));
    }
    e
}

#[test]
fn event_size() {
    let event1 = Event::with_id(1, b"k".to_vec(), Action::Read, 0);
    println!("Event1 size: {}", event1.size());
    assert_eq!(event1.size(), 42);
    let mut event2 = Event::with_id(2, b"k".to_vec(), Action::Write, 0);
    event2.set_payload(Some(bincode::serialize("This is payload").unwrap()));
    println!("Event2 size: {}", event2.size());
    // 8-byte length prefix plus 15 bytes, rounded up to 24.
    assert_eq!(event2.size(), 34 + 24);
}

#[test]
fn payload_attaches_once_and_only_to_writes() {
    let mut w = Event::with_id(1, b"a".to_vec(), Action::Write, 1);
    w.set_payload(Some(b"first".to_vec()));
    w.set_payload(Some(b"second".to_vec()));
    assert_eq!(w.payload(), Some(b"first".to_vec()));
    let mut d = Event::with_id(1, b"a".to_vec(), Action::Delete, 1);
    d.set_payload(Some(b"x".to_vec()));
    assert_eq!(d.payload(), None);
}

#[test]
fn record_round_trip_without_terminator_inside() {
    let e = event(0x1234_5678_9abc_def0_0fed_cba9_8765_4321, "key|with|bars", Action::Write, 42, Some(b"||payload||"));
    let bytes = encode(&e);
    assert_eq!(*bytes.last().unwrap(), TERMINATOR);
    assert!(!bytes[..bytes.len() - 1].contains(&TERMINATOR));
    let (back, end) = decode_record(&bytes, 0).unwrap();
    assert_eq!(end, bytes.len());
    assert_eq!(back.seq, 42);
    assert_eq!(back.tid, e.tid);
    assert_eq!(back.key, b"key|with|bars".to_vec());
    assert_eq!(back.action, Action::Write);
    assert_eq!(back.payload, Some(b"||payload||".to_vec()));
}

#[test]
fn truncated_trailing_record_is_dropped() {
    let a = event(1, "a", Action::Write, 1, Some(b"alpha"));
    let b = event(2, "b", Action::Delete, 2, None);
    let mut bytes = encode(&a);
    bytes.extend(encode(&b));
    let whole = bytes.len();
    bytes.extend_from_slice(&encode(&a)[..10]);
    let events = decode_all(&bytes);
    assert_eq!(events.len(), 2);
    assert_eq!(events[1].tid, 2);
    assert_eq!(events[1].action, Action::Delete);
    assert!(decode_record(&bytes, whole).is_none());
}

#[test]
fn write_wal_test() {
    let mut wal = Wal::new(1);
    let event1 = event(1, "one", Action::Read, 1, None);
    let mut event2 = Event::with_id(2, b"two".to_vec(), Action::Write, 2);
    let payload2 = Some(bincode::serialize("This is second event read").unwrap());
    event2.set_payload(payload2);
    wal.add_event(&event1);
    wal.add_event(&event2);
    assert_eq!(wal.bytes().len(), encode(&event1).len() + encode(&event2).len());
}

#[test]
fn iterate_wal_test() {
    let mut wal = Wal::new(1);
    let event1 = event(1, "one", Action::Read, 1, None);
    let mut event2 = Event::with_id(2, b"two".to_vec(), Action::Write, 2);
    let payload2 = Some(bincode::serialize("This is second event read").unwrap());
    event2.set_payload(payload2);
    wal.add_event(&event1);
    wal.add_event(&event2);
    let events = wal.events();
    assert_eq!(events.len(), 2);
    for event in &events {
        if let Some(payload) = event.payload() {
            let payload_str = bincode::deserialize::<&str>(&payload).unwrap();
            println!("Event payload: {}", payload_str);
            assert_eq!(payload_str, "This is second event read");
        }
    }
    assert_eq!(events[0].tid, 1);
    assert_eq!(events[1].tid, 2);
}

#[test]
fn load_wal_test() {
    let mut wal = Wal::new(7);
    let event1 = event(1, "one", Action::Read, 1, None);
    let mut event2 = Event::with_id(2, b"two".to_vec(), Action::Write, 2);
    let payload2 = Some(bincode::serialize("This is second event read").unwrap());
    event2.set_payload(payload2);
    wal.add_event(&event1);
    wal.add_event(&event2);
    wal.delete_event(2, b"two".to_vec(), 3);
    let new_wal = Wal::from_bytes(7, wal.bytes().clone());
    println!("New WAL");
    let events = new_wal.events();
    assert_eq!(events.len(), 3);
    assert_eq!(events[2].action, Action::Delete);
    assert_eq!(events[2].seq, 3);
    assert_eq!(events[1].payload(), event2.payload());
}

#[test]
fn memtable_keeps_latest_in_id_order() {
    let mut m = MemTable::new();
    m.insert(event(30, "c", Action::Write, 1, Some(b"c1")));
    m.insert(event(10, "a", Action::Write, 2, Some(b"a1")));
    m.insert(event(20, "b", Action::Write, 3, Some(b"b1")));
    m.insert(event(10, "a", Action::Write, 4, Some(b"a2")));
    let evs = m.events();
    let ids: Vec<u128> = evs.iter().map(|e| e.tid).collect();
    assert_eq!(ids, vec![10, 20, 30]);
    assert_eq!(m.event(10).unwrap().payload(), Some(b"a2".to_vec()));
    assert!(m.contains(20));
    assert!(!m.contains(40));
    assert!(m.event(40).is_none());
}

#[test]
fn memtable_size_replaces_old_event_size() {
    let mut m = MemTable::new();
    m.insert(event(1, "a", Action::Write, 1, Some(&[0u8; 3])));
    assert_eq!(m.size(), 34 + 8);
    m.insert(event(1, "a", Action::Write, 2, Some(&[0u8; 17])));
    assert_eq!(m.size(), 34 + 24);
    m.insert(event(2, "b", Action::Delete, 3, None));
    assert_eq!(m.size(), 34 + 24 + 34 + 8);
}

#[test]
fn memtable_writes_only_writes() {
    let mut m = MemTable::new();
    m.insert(event(2, "b", Action::Delete, 1, None));
    m.insert(event(1, "a", Action::Write, 2, Some(b"x")));
    m.insert(event(3, "c", Action::Write, 3, Some(b"y")));
    let ws = m.writes();
    let ids: Vec<u128> = ws.iter().map(|e| e.tid).collect();
    assert_eq!(ids, vec![1, 3]);
}

fn table(epoch: u128, events: Vec<Event>) -> SSTable {
    let mut m = MemTable::new();
    for e in events {
        m.insert(e);
    }
    SSTable::from_memtable(epoch, &m)
}

#[test]
fn merge_newer_wins_and_deletes_erase() {
    let a = table(100, vec![
        event(1, "a", Action::Write, 1, Some(b"old-a")),
        event(2, "b", Action::Write, 2, Some(b"old-b")),
        event(4, "d", Action::Write, 3, Some(b"d")),
    ]);
    let b = table(200, vec![
        event(1, "a", Action::Write, 5, Some(b"new-a")),
        event(2, "b", Action::Delete, 6, None),
        event(3, "c", Action::Write, 7, Some(b"c")),
    ]);
    let m = a.merge(b);
    assert_eq!(m.epoch(), 200);
    let evs = m.events();
    let ids: Vec<u128> = evs.iter().map(|e| e.tid).collect();
    assert_eq!(ids, vec![1, 3, 4]);
    assert_eq!(evs[0].payload(), Some(b"new-a".to_vec()));
    assert!(!m.contains(2));
    assert_eq!(m.get(4).unwrap().payload(), Some(b"d".to_vec()));
}

#[test]
fn merge_tie_takes_other() {
    let a = table(5, vec![event(1, "a", Action::Write, 1, Some(b"mine"))]);
    let b = table(5, vec![event(1, "a", Action::Write, 2, Some(b"theirs"))]);
    let m = a.merge(b);
    assert_eq!(m.get(1).unwrap().payload(), Some(b"theirs".to_vec()));
}

#[test]
fn table_bytes_round_trip() {
    let t = table(9, vec![event(2, "b", Action::Write, 1, Some(b"x")), event(1, "a", Action::Delete, 2, None)]);
    let bytes = t.to_bytes();
    let back = SSTable::from_bytes(9, &bytes).unwrap();
    assert_eq!(back.len(), 2);
    assert_eq!(back.events()[0].tid, 1);
    assert_eq!(back.events()[1].payload(), Some(b"x".to_vec()));
}

#[test]
fn table_bytes_out_of_order_refused() {
    let mut bytes = encode(&event(2, "b", Action::Write, 1, None));
    bytes.extend(encode(&event(1, "a", Action::Write, 1, None)));
    assert!(SSTable::from_bytes(1, &bytes).is_none());
}

#[test]
fn recovery_test() {
    let recovery = Recovery {};
    let memtable = recovery.recover_memtable(&vec![]);
    for event in memtable.events() {
        println!("Event: {}", event.tid);
    }
    assert_eq!(memtable.events().len(), 0);
    println!("Recovery succesful");
}

#[test]
fn recover_memtable_replays_in_order() {
    let mut w1 = Wal::new(1);
    w1.add_event(&event(1, "a", Action::Write, 1, Some(b"one")));
    let mut w2 = Wal::new(2);
    w2.add_event(&event(1, "a", Action::Write, 2, Some(b"two")));
    w2.add_event(&event(5, "e", Action::Write, 3, Some(b"five")));
    let m = Recovery {}.recover_memtable(&vec![w1.bytes().clone(), w2.bytes().clone()]);
    assert_eq!(m.event(1).unwrap().payload(), Some(b"two".to_vec()));
    assert_eq!(m.event(5).unwrap().seq, 3);
}

#[test]
fn recover_files_sorts_by_epoch() {
    let names: Vec<Vec<u8>> = vec![
        b"rdeebee-300.wal".to_vec(),
        b"rdeebee-20.table".to_vec(),
        b"rdeebee-100.wal".to_vec(),
        b"notes.txt".to_vec(),
        b"rdeebee-7.wal".to_vec(),
    ];
    let r = Recovery {};
    let wals = r.recover_files(&names, true).ok().unwrap();
    assert_eq!(wals, vec![(7, 4), (100, 2), (300, 0)]);
    let tables = r.recover_files(&names, false).ok().unwrap();
    assert_eq!(tables, vec![(20, 1)]);
}

#[test]
fn recover_files_bad_epoch_is_error() {
    let names: Vec<Vec<u8>> = vec![b"rdeebee-12x.wal".to_vec()];
    assert!(Recovery {}.recover_files(&names, true).is_err());
    let names: Vec<Vec<u8>> = vec![b"plain.wal".to_vec()];
    assert!(Recovery {}.recover_files(&names, true).is_err());
}

#[test]
fn recover_files_reads_epochs_past_64_bits() {
    let names: Vec<Vec<u8>> = vec![b"rdeebee-18446744073709551626.table".to_vec(), b"rdeebee-5.table".to_vec()];
    let r = Recovery {}.recover_files(&names, false).ok().unwrap();
    assert_eq!(r, vec![(5, 1), (18446744073709551626u128, 0)]);
}

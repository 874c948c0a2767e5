use rdeebee::engine::Engine;
use rdeebee::codec::encode;
use rdeebee::event::{Action, Event};
use rdeebee::request::{route, Request, Route, Status, OP_DELETE, OP_READ, OP_WRITE};

fn write(key: &str, seq: u64, payload: &str) -> Request {
    Request::new(key.as_bytes().to_vec(), OP_WRITE, seq, payload.as_bytes().to_vec())
}

fn delete(key: &str, seq: u64) -> Request {
    Request::new(key.as_bytes().to_vec(), OP_DELETE, seq, Vec::new())
}

fn key(k: &str) -> Vec<u8> {
    k.as_bytes().to_vec()
}

#[test]
fn boot_write_read() {
    let mut e = Engine::new(2048, 1);
    let r = e.add_event(&write("a", 1, "α"));
    assert_eq!(r.status, Status::Success);
    assert_eq!(r.key, key("a"));
    assert_eq!(r.op, OP_WRITE);
    let g = e.get_event_by_key(&key("a"));
    assert_eq!(g.status, Status::Success);
    assert_eq!(g.op, OP_WRITE);
    assert_eq!(g.payload, "α".as_bytes().to_vec());
}

#[test]
fn overwrite_returns_latest() {
    let mut e = Engine::new(2048, 1);
    e.add_event(&write("a", 1, "α"));
    let r = e.add_event(&write("a", 2, "β"));
    assert_eq!(r.status, Status::Success);
    assert_eq!(e.get_event_by_key(&key("a")).payload, "β".as_bytes().to_vec());
}

#[test]
fn delete_then_read() {
    let mut e = Engine::new(2048, 1);
    e.add_event(&write("a", 1, "α"));
    e.add_event(&write("a", 2, "β"));
    let r = e.delete_event(&delete("a", 3));
    assert_eq!(r.status, Status::Success);
    let g = e.get_event_by_key(&key("a"));
    assert_eq!(g.status, Status::InvalidKey);
    assert!(g.payload.is_empty());
}

#[test]
fn seal_and_merge_drop_deleted_key() {
    let mut e = Engine::new(1, 1);
    e.add_event_with_tid(&write("a", 1, "α"), 100);
    assert!(e.try_memtable_compact(10, 11));
    e.add_event_with_tid(&write("b", 2, "β"), 200);
    assert!(e.try_memtable_compact(20, 21));
    assert_eq!(e.delete_event(&delete("a", 3)).status, Status::Success);
    assert!(e.try_memtable_compact(30, 31));
    assert_eq!(e.table_count(), 3);
    assert!(e.try_sstables_compact());
    assert!(e.try_sstables_compact());
    assert!(!e.try_sstables_compact());
    assert_eq!(e.table_count(), 1);
    let evs = e.table(0).events();
    assert_eq!(evs.len(), 1);
    assert_eq!(evs[0].key, key("b"));
    assert_eq!(evs[0].payload(), Some("β".as_bytes().to_vec()));
    assert_eq!(e.table(0).epoch(), 30);
    assert_eq!(e.get_event_by_key(&key("b")).payload, "β".as_bytes().to_vec());
    assert_eq!(e.get_event_by_key(&key("a")).status, Status::InvalidKey);
}

#[test]
fn crash_and_recover() {
    let mut e = Engine::new(2048, 5);
    e.add_event(&write("a", 1, "α"));
    e.add_event(&write("a", 2, "β"));
    let wal = e.wal().bytes().clone();
    drop(e);
    let r = Engine::recover(2048, 6, &vec![wal], &vec![]).ok().unwrap();
    let g = r.get_event_by_key(&key("a"));
    assert_eq!(g.status, Status::Success);
    assert_eq!(g.payload, "β".as_bytes().to_vec());
}

#[test]
fn recover_from_tables_and_log() {
    let mut e = Engine::new(1, 1);
    e.add_event_with_tid(&write("a", 1, "α"), 7);
    assert!(e.try_memtable_compact(10, 2));
    e.add_event_with_tid(&write("b", 2, "β"), 8);
    let table = (e.table(0).epoch(), e.table(0).to_bytes());
    let wal = e.wal().bytes().clone();
    let r = Engine::recover(1, 3, &vec![wal], &vec![table]).ok().unwrap();
    assert_eq!(r.get_event_by_key(&key("a")).payload, "α".as_bytes().to_vec());
    assert_eq!(r.get_event_by_key(&key("b")).payload, "β".as_bytes().to_vec());
    assert!(r.contains_event(7));
    assert!(r.contains_event(8));
    assert_eq!(r.table_count(), 1);
}

#[test]
fn recover_refuses_unsorted_table() {
    let mut e = Engine::new(1, 1);
    e.add_event_with_tid(&write("b", 1, "x"), 9);
    e.add_event_with_tid(&write("a", 2, "y"), 3);
    // The log lists id 9 before id 3: as a table file it is out of order.
    let bytes = e.wal().bytes().clone();
    assert!(Engine::recover(1, 2, &vec![], &vec![(4, bytes)]).is_err());
}

#[test]
fn read_op_is_invalid_for_add() {
    let mut e = Engine::new(2048, 1);
    let r = e.add_event(&Request::new(key("a"), OP_READ, 1, Vec::new()));
    assert_eq!(r.status, Status::InvalidOp);
    let r = e.add_event(&Request::new(key("a"), 9, 1, Vec::new()));
    assert_eq!(r.status, Status::InvalidOp);
    assert_eq!(r.op, 9);
    assert_eq!(e.get_event_by_key(&key("a")).status, Status::InvalidKey);
}

#[test]
fn delete_of_unknown_key_is_invalid() {
    let mut e = Engine::new(2048, 1);
    assert_eq!(e.delete_event(&delete("nope", 1)).status, Status::InvalidKey);
    assert!(e.wal().bytes().is_empty());
}

#[test]
fn add_with_delete_op_deletes() {
    let mut e = Engine::new(2048, 1);
    e.add_event(&write("k", 1, "v"));
    assert_eq!(e.add_event(&delete("k", 2)).status, Status::Success);
    assert_eq!(e.get_event_by_key(&key("k")).status, Status::InvalidKey);
}

#[test]
fn last_write_wins() {
    let mut e = Engine::new(4096, 1);
    for s in 1..=5u64 {
        e.add_event(&write("k", s, &format!("v{}", s)));
    }
    assert_eq!(e.get_event_by_key(&key("k")).payload, b"v5".to_vec());
}

#[test]
fn memtable_seal_keeps_ids() {
    let mut e = Engine::new(10, 1);
    e.add_event_with_tid(&write("a", 1, "x"), 11);
    e.add_event_with_tid(&write("b", 2, "y"), 12);
    assert!(e.get_memtable_size() >= 10);
    assert!(e.try_memtable_compact(5, 6));
    assert_eq!(e.get_memtable_size(), 0);
    assert_eq!(e.table_count(), 1);
    assert!(e.contains_event(11));
    assert!(e.contains_event(12));
    assert!(!e.contains_event(13));
    assert!(e.wal().bytes().is_empty());
    assert_eq!(e.wal().epoch(), 6);
}

#[test]
fn below_threshold_no_seal() {
    let mut e = Engine::new(1_000_000, 1);
    e.add_event(&write("a", 1, "x"));
    assert!(!e.try_memtable_compact(5, 6));
    assert_eq!(e.table_count(), 0);
    assert!(!e.try_sstables_compact());
}

#[test]
fn ids_stay_in_bloom_after_merge() {
    let mut e = Engine::new(1, 1);
    for (i, k) in ["a", "b", "c"].iter().enumerate() {
        e.add_event_with_tid(&write(k, i as u64, "p"), 1000 + i as u128);
        assert!(e.try_memtable_compact(10 + i as u128, 20 + i as u128));
    }
    assert!(e.try_sstables_compact());
    for i in 0..3u128 {
        assert!(e.contains_event(1000 + i));
    }
}

#[test]
fn wal_holds_records_of_writes() {
    let mut e = Engine::new(4096, 1);
    e.add_event_with_tid(&write("a", 1, "x"), 5);
    e.delete_event(&delete("a", 2));
    let events = e.wal().events();
    assert_eq!(events.len(), 2);
    assert_eq!(events[0].tid, 5);
    assert_eq!(events[1].tid, 5);
    assert_eq!(events[1].seq, 2);
}

#[test]
fn prepare_changes_nothing_until_applied() {
    let mut e = Engine::new(4096, 1);
    let ev = e.prepare_event(&write("a", 1, "x"), 77).ok().unwrap();
    assert_eq!(ev.tid, 77);
    assert_eq!(e.get_event_by_key(&key("a")).status, Status::InvalidKey);
    assert!(e.wal().bytes().is_empty());
    let record = encode(&ev);
    e.apply_event(ev);
    assert_eq!(e.wal().bytes().clone(), record);
    assert_eq!(e.get_event_by_key(&key("a")).payload, b"x".to_vec());
    // The key keeps its id: a fresh id offered later is ignored.
    let again = e.prepare_event(&write("a", 2, "y"), 99).ok().unwrap();
    assert_eq!(again.tid, 77);
    assert!(matches!(e.prepare_event(&Request::new(key("a"), OP_READ, 3, vec![]), 5), Err(Status::InvalidOp)));
    assert!(matches!(e.prepare_delete(&delete("zz", 4)), Err(Status::InvalidKey)));
    let d = e.prepare_delete(&delete("a", 5)).ok().unwrap();
    assert_eq!(d.tid, 77);
}

#[test]
fn requests_are_routed_by_operation() {
    assert_eq!(route(OP_WRITE), Route::Enqueue);
    assert_eq!(route(OP_DELETE), Route::Enqueue);
    assert_eq!(route(OP_READ), Route::Read);
    assert_eq!(route(7), Route::Reject);
    assert_eq!(route(-1), Route::Reject);
}

#[test]
fn new_events_get_distinct_random_ids() {
    let a = Event::new(key("a"), Action::Write, 1);
    let b = Event::new(key("b"), Action::Write, 2);
    assert_ne!(a.tid, b.tid);
    assert_eq!(a.payload(), None);
    assert_eq!(a.key, key("a"));
}

#[test]
fn new_key_cannot_take_an_id_in_use() {
    let mut e = Engine::new(4096, 1);
    assert_eq!(e.add_event_with_tid(&write("a", 1, "x"), 5).status, Status::Success);
    assert!(e.tid_in_use(5));
    assert!(!e.tid_in_use(6));
    let r = e.add_event_with_tid(&write("b", 2, "y"), 5);
    assert_eq!(r.status, Status::ServerError);
    assert_eq!(e.get_event_by_key(&key("b")).status, Status::InvalidKey);
    assert!(matches!(e.prepare_event(&write("b", 2, "y"), 5), Err(Status::ServerError)));
    // A mapped key keeps its id whatever is offered.
    assert_eq!(e.add_event_with_tid(&write("a", 3, "z"), 5).status, Status::Success);
    assert_eq!(e.add_event_with_tid(&write("b", 4, "w"), 6).status, Status::Success);
    assert_eq!(e.get_event_by_key(&key("b")).payload, b"w".to_vec());
    assert_eq!(e.get_event_by_key(&key("a")).payload, b"z".to_vec());
}

#[test]
fn random_ids_differ_between_keys() {
    let mut e = Engine::new(4096, 1);
    e.add_event(&write("a", 1, "x"));
    e.add_event(&write("b", 2, "y"));
    let ta = e.prepare_request(&write("a", 3, "")).ok().unwrap().tid;
    let tb = e.prepare_request(&write("b", 4, "")).ok().unwrap().tid;
    assert_ne!(ta, tb);
}

#[test]
fn delete_survives_recovery() {
    let mut e = Engine::new(4096, 1);
    e.add_event(&write("a", 1, "α"));
    e.add_event(&write("c", 2, "γ"));
    assert_eq!(e.delete_event(&delete("a", 3)).status, Status::Success);
    let wal = e.wal().bytes().clone();
    let r = Engine::recover(4096, 2, &vec![wal], &vec![]).ok().unwrap();
    assert_eq!(r.get_event_by_key(&key("a")).status, Status::InvalidKey);
    assert_eq!(r.get_event_by_key(&key("c")).payload, "γ".as_bytes().to_vec());
}

#[test]
fn recovered_keys_keep_their_ids() {
    let mut e = Engine::new(1, 1);
    e.add_event_with_tid(&write("a", 1, "x"), 40);
    assert!(e.try_memtable_compact(10, 2));
    e.add_event_with_tid(&write("b", 2, "y"), 30);
    let table = (e.table(0).epoch(), e.table(0).to_bytes());
    let wal = e.wal().bytes().clone();
    let r = Engine::recover(1, 3, &vec![wal], &vec![table]).ok().unwrap();
    assert_eq!(r.prepare_event(&write("a", 5, ""), 99).ok().unwrap().tid, 40);
    assert_eq!(r.prepare_event(&write("b", 6, ""), 99).ok().unwrap().tid, 30);
}

#[test]
fn large_epochs_are_kept() {
    let mut e = Engine::new(1, 1);
    e.add_event_with_tid(&write("a", 1, "x"), 1);
    let big: u128 = u64::MAX as u128 + 10;
    assert!(e.try_memtable_compact(big, big + 1));
    assert_eq!(e.table(0).epoch(), big);
    assert_eq!(e.wal().epoch(), big + 1);
}

use rdeebee::bloom::BloomFilter;
use rdeebee::cluster::{parse_group, CampaignAction, ClusterNodeError, KeyType, Node, NodeType, Registry, ServiceNode};
use rdeebee::common::{CustomHttpErrors, Role};
use rdeebee::config::{Config, PreConfig};

fn preconf(groups: usize, group_size: usize, reads: usize) -> PreConfig {
    PreConfig {
        dbname: b"db".to_vec(),
        groups,
        group_size,
        reads,
        writes: 2,
        id_key: b"id".to_vec(),
        failover_id_key_prefix: b"failover".to_vec(),
    }
}

fn s(v: &[u8]) -> String {
    String::from_utf8(v.to_vec()).unwrap()
}

fn peer(name: &str) -> ServiceNode {
    ServiceNode { node: name.to_string(), address: [10, 0, 0, 1] }
}

fn node_with_id(id: usize) -> Node {
    let cfg = Config::new(preconf(4, 3, 2)).unwrap();
    let mut n = Node::new(peer("n1"), b"{\"node\":\"n1\"}".to_vec(), cfg, 7, 2);
    n.set_node_id(id);
    n
}

#[test]
fn config_requires_reads() {
    assert!(Config::new(preconf(4, 3, 0)).is_none());
}

#[test]
fn config_group_assignment() {
    let cfg = Config::new(preconf(4, 3, 2)).unwrap();
    assert_eq!(cfg.group_id(0), Some(0));
    assert_eq!(cfg.group_id(2), Some(0));
    assert_eq!(cfg.group_id(3), Some(1));
    assert_eq!(cfg.group_id(8), Some(2));
    assert_eq!(cfg.group_id(9), None);
    assert_eq!(cfg.reads(), 2);
    assert_eq!(cfg._writes(), 2);
    assert_eq!(s(&cfg.dbname()), "db");
    let (id, failover) = cfg.id_keys();
    assert_eq!(s(&id), "id");
    assert_eq!(s(&failover), "failover");
}

#[test]
fn config_coalition_keys() {
    let cfg = Config::new(preconf(5, 3, 2)).unwrap();
    assert_eq!(cfg.groupings_index(0), Some(0));
    assert_eq!(cfg.groupings_index(3), Some(1));
    assert_eq!(cfg.groupings_index(4), Some(2));
    assert_eq!(cfg.groupings_index(5), None);
    let (e1, e2) = cfg.election_keys(3).unwrap();
    assert_eq!(s(&e1), "election-db-group-1-leader-1");
    assert_eq!(s(&e2), "election-db-group-1-leader-2");
    let (l1, l2) = cfg.leader_key(12 / 4).unwrap();
    assert_eq!(s(&l1), "leader-db-group-1-1");
    assert_eq!(s(&l2), "leader-db-group-1-2");
    assert!(cfg.leader_key(7).is_none());
    assert!(cfg.group_ids(&b"nobody".to_vec()).is_none());
}

#[test]
fn registry_add_replace_count() {
    let mut r = Registry::_new(1);
    assert_eq!(r.member_count(), 0);
    r.add_endpoint(peer("a"));
    r.add_endpoint(peer("b"));
    assert_eq!(r.member_count(), 2);
    r.update_registry(vec![peer("c")]);
    assert_eq!(r.member_count(), 1);
}

#[test]
fn member_cannot_touch_registry() {
    let mut n = node_with_id(0);
    assert!(!n.is_leader());
    assert!(matches!(n.add_endpoint(peer("x")), Err(ClusterNodeError::InvalidFunctionAttempt(_))));
    assert!(matches!(n.update_registry(vec![]), Err(ClusterNodeError::InvalidFunctionAttempt(_))));
    n.flip_nodetype();
    assert!(n.is_leader());
    assert!(n.add_endpoint(peer("x")).is_ok());
    n.flip_nodetype();
    assert!(!n.is_leader());
}

#[test]
fn keys_need_an_id() {
    let cfg = Config::new(preconf(4, 3, 2)).unwrap();
    let n = Node::new(peer("n1"), b"{}".to_vec(), cfg, 7, 2);
    assert!(matches!(n.fetch_keys(KeyType::Leader), Err(ClusterNodeError::InvalidState(_))));
    assert!(matches!(n.node_id_from_registry(), Err(ClusterNodeError::InvalidState(_))));
    assert!(matches!(n.group_key(), Err(ClusterNodeError::InvalidState(_))));
}

#[test]
fn campaign_picks_first_free_slot() {
    let n = node_with_id(4);
    assert_eq!(s(&n.campaign_target(false, true).ok().unwrap().unwrap()), "election-db-group-0-leader-1");
    assert_eq!(s(&n.campaign_target(true, false).ok().unwrap().unwrap()), "election-db-group-0-leader-2");
    assert!(n.campaign_target(true, true).ok().unwrap().is_none());
}

#[test]
fn deleted_leader_key_frees_its_slot() {
    let n = node_with_id(7);
    let got = n.slot_of_deleted(&b"leader-db-group-1-2".to_vec()).ok().unwrap().unwrap();
    assert_eq!(s(&got), "election-db-group-1-leader-2");
    assert!(n.slot_of_deleted(&b"member-db-group-2-x".to_vec()).ok().unwrap().is_none());
    let lk = n.leader_key_for(&b"election-db-group-1-leader-1".to_vec()).ok().unwrap();
    assert_eq!(s(&lk), "leader-db-group-1-1");
}

#[test]
fn registration_and_failover_keys() {
    let mut n = node_with_id(1);
    let key = n.registration_key(0);
    assert_eq!(s(&key), "member-db-group-0-{\"node\":\"n1\"}");
    n.set_group_key(key.clone());
    assert_eq!(n.group_key().ok().unwrap(), key);
    assert!(n.failover_announcement(0).is_none());
    n.flip_nodetype();
    let (k, v) = n.failover_announcement(12).unwrap();
    assert_eq!(s(&k), "failover-{\"node\":\"n1\"}");
    assert_eq!(s(&v), "12");
    n.add_endpoint(peer("a")).ok().unwrap();
    n.add_endpoint(peer("b")).ok().unwrap();
    assert!(n.failover_announcement(0).is_none());
}

#[test]
fn leaders_absent_is_error() {
    let n = node_with_id(0);
    assert!(matches!(n.get_leaders(vec![]), Err(ClusterNodeError::InvalidState(_))));
    assert_eq!(n.get_leaders(vec![peer("l")]).ok().unwrap().len(), 1);
}

#[test]
fn bloom_reports_added_ids() {
    let mut b = BloomFilter::new();
    assert!(!b.contains(42));
    b.add(42);
    b.add(7);
    assert!(b.contains(42));
    assert!(b.contains(7));
}

#[test]
fn shared_enums() {
    assert_eq!(Role::Leader, Role::Leader);
    assert_ne!(Role::Node, Role::Candidate);
    let e = CustomHttpErrors::InvalidBody("x".to_string());
    assert!(matches!(e, CustomHttpErrors::InvalidBody(_)));
    assert_eq!(NodeType::Member, NodeType::Member);
}

#[test]
fn failover_value_parses_as_group() {
    assert_eq!(parse_group(&b"12".to_vec()), Some(12));
    assert_eq!(parse_group(&b"0".to_vec()), Some(0));
    assert_eq!(parse_group(&b"".to_vec()), None);
    assert_eq!(parse_group(&b"1a".to_vec()), None);
    assert_eq!(parse_group(&b"99999999999999999999999".to_vec()), None);
}

#[test]
fn node_keeps_lease_and_interval() {
    let n = node_with_id(0);
    assert_eq!(n.lease(), 7);
    assert_eq!(n.refresh_interval(), 2);
    assert_eq!(n.svc_json(), b"{\"node\":\"n1\"}".to_vec());
}

#[test]
fn deleted_election_key_frees_its_slot() {
    let n = node_with_id(7);
    let got = n.slot_of_deleted(&b"election-db-group-1-leader-1/lock-abc".to_vec()).ok().unwrap().unwrap();
    assert_eq!(s(&got), "election-db-group-1-leader-1");
    let got = n.slot_of_deleted(&b"election-db-group-1-leader-2/x".to_vec()).ok().unwrap().unwrap();
    assert_eq!(s(&got), "election-db-group-1-leader-2");
}

#[test]
fn campaign_locks_before_it_puts() {
    let n = node_with_id(4);
    let e2 = b"election-db-group-0-leader-2".to_vec();
    match n.campaign_action(&e2, false).ok().unwrap() {
        CampaignAction::Lock(k, lease) => {
            assert_eq!(k, e2);
            assert_eq!(lease, 7);
        }
        CampaignAction::Put(..) => panic!("put before the lock"),
    }
    match n.campaign_action(&e2, true).ok().unwrap() {
        CampaignAction::Put(k, v, lease) => {
            assert_eq!(s(&k), "leader-db-group-0-2");
            assert_eq!(v, b"{\"node\":\"n1\"}".to_vec());
            assert_eq!(lease, 7);
        }
        CampaignAction::Lock(..) => panic!("lock again"),
    }
}

#[test]
fn registration_carries_the_lease() {
    let n = node_with_id(2);
    let (k, v, lease) = n.registration(0);
    assert_eq!(s(&k), "member-db-group-0-{\"node\":\"n1\"}");
    assert_eq!(v, b"{\"node\":\"n1\"}".to_vec());
    assert_eq!(lease, 7);
}

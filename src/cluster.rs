//! Membership and leadership of a cluster node: its identity, its group's
//! peer registry, and the decisions it takes on what the coordinator reports.
//! The coordinator calls themselves (leases, locks, puts, watches) are made
//! by the caller, which hands their outcome to these functions.
use crate::config::{
    decimal, election_key, group_membership_key_gen, leader_key, membership_key, push_all,
    push_decimal, text, Config,
};
use crate::event::{bytes_equal, copy_bytes};
use crate::recovery::{dec_value, is_dec, lemma_dec_prefix_le};
use vstd::prelude::*;
use vstd::string::StringSliceAdditionalSpecFns;

verus! {

/// A node as peers know it: its name and IPv4 address.
pub struct ServiceNode {
    pub node: String,
    pub address: [u8; 4],
}

/// The role of a node in its coalition.
#[derive(Clone, Copy, Debug, PartialEq, Eq, Structural)]
pub enum NodeType {
    Member,
    Leader,
}

/// The two kinds of coalition keys.
#[derive(Clone, Copy, Debug, PartialEq, Eq, Structural)]
pub enum KeyType {
    Election,
    Leader,
}

/// What can go wrong in a cluster node.
#[derive(Debug)]
pub enum ClusterNodeError {
    SerializationError(String),
    StringifyErrorJson(String),
    StringifyError(String),
    EtcdError(String),
    ServerCreationError(String),
    InvalidFunctionAttempt(String),
    InvalidState(String),
}

/// The peers of a group, as its leader knows them.
pub struct Registry {
    _group_id: usize,
    registry: Vec<ServiceNode>,
}

impl Registry {
    pub closed spec fn members(&self) -> Seq<ServiceNode> {
        self.registry@
    }

    /// An empty registry.
    pub fn _new(_group_id: usize) -> (r: Registry)
        ensures
            r.members() == Seq::<ServiceNode>::empty(),
    {
        Registry { _group_id, registry: Vec::new() }
    }

    /// Adds a node to the group.
    pub fn add_endpoint(&mut self, endpoint: ServiceNode)
        ensures
            final(self).members() == old(self).members().push(endpoint),
    {
        self.registry.push(endpoint);
    }

    /// Replaces the whole group.
    pub fn update_registry(&mut self, endpoints: Vec<ServiceNode>)
        ensures
            final(self).members() == endpoints@,
    {
        self.registry = endpoints;
    }

    /// The number of nodes in the group.
    pub fn member_count(&self) -> (r: usize)
        ensures
            r == self.members().len(),
    {
        self.registry.len()
    }
}

/// A step of a campaign.
pub enum CampaignAction {
    /// Lock this election key with the node's lease.
    Lock(Vec<u8>, i64),
    /// Put this value into this leader key, with the node's lease.
    Put(Vec<u8>, Vec<u8>, i64),
}

/// What a node does about an election: campaign for the first free slot's
/// election key, or, with both slots taken, nothing.
pub open spec fn campaign_choice(taken1: bool, taken2: bool) -> Option<nat> {
    if !taken1 {
        Some(1)
    } else if !taken2 {
        Some(2)
    } else {
        None
    }
}

pub open spec fn starts_with(s: Seq<u8>, p: Seq<u8>) -> bool {
    p.len() <= s.len() && s.subrange(0, p.len() as int) == p
}

fn has_prefix(s: &Vec<u8>, p: &Vec<u8>) -> (r: bool)
    ensures
        r == starts_with(s@, p@),
{
    if p.len() > s.len() {
        return false;
    }
    let mut i: usize = 0;
    while i < p.len()
        invariant
            p.len() <= s.len(),
            i <= p.len(),
            forall|k: int| 0 <= k < i ==> s@[k] == p@[k],
        decreases p.len() - i,
    {
        if s[i] != p[i] {
            assert(s@.subrange(0, p.len() as int)[i as int] != p@[i as int]);
            return false;
        }
        i = i + 1;
    }
    assert(s@.subrange(0, p.len() as int) =~= p@);
    true
}

/// A cluster node's state.
pub struct Node {
    svc_node: ServiceNode,
    /// The node as JSON, the value it registers under.
    svc_json: Vec<u8>,
    node_id: Option<usize>,
    group_key: Option<Vec<u8>>,
    config: Config,
    lease: i64,
    refresh_interval: u64,
    nodetype: NodeType,
    registry: Registry,
}

impl Node {
    pub closed spec fn role(&self) -> NodeType {
        self.nodetype
    }

    pub closed spec fn id(&self) -> Option<usize> {
        self.node_id
    }

    pub closed spec fn config_spec(&self) -> Config {
        self.config
    }

    pub closed spec fn json(&self) -> Seq<u8> {
        self.svc_json@
    }

    pub closed spec fn registry_spec(&self) -> Seq<ServiceNode> {
        self.registry.members()
    }

    pub closed spec fn registered_key(&self) -> Option<Vec<u8>> {
        self.group_key
    }

    pub open spec fn wf(&self) -> bool {
        self.config_spec().wf()
    }

    /// A new member with no id yet, holding the given lease.
    pub fn new(
        svc_node: ServiceNode,
        svc_json: Vec<u8>,
        config: Config,
        lease: i64,
        refresh_interval: u64,
    ) -> (r: Node)
        requires
            config.wf(),
        ensures
            r.wf(),
            r.role() == NodeType::Member,
            r.id() is None,
            r.registered_key() is None,
            r.json() == svc_json@,
            r.config_spec() == config,
            r.registry_spec() == Seq::<ServiceNode>::empty(),
            r.lease_spec() == lease,
            r.refresh_spec() == refresh_interval,
    {
        Node {
            svc_node,
            svc_json,
            node_id: None,
            group_key: None,
            config,
            lease,
            refresh_interval,
            nodetype: NodeType::Member,
            registry: Registry::_new(0),
        }
    }

    /// The node as JSON.
    pub fn svc_json(&self) -> (r: Vec<u8>)
        ensures
            r@ == self.json(),
    {
        copy_bytes(&self.svc_json)
    }

    pub closed spec fn lease_spec(&self) -> i64 {
        self.lease
    }

    pub closed spec fn refresh_spec(&self) -> u64 {
        self.refresh_interval
    }

    /// The node's coordinator lease.
    pub fn lease(&self) -> (r: i64)
        ensures
            r == self.lease_spec(),
    {
        self.lease
    }

    /// Seconds between lease refreshes.
    pub fn refresh_interval(&self) -> (r: u64)
        ensures
            r == self.refresh_spec(),
    {
        self.refresh_interval
    }

    pub fn config(&self) -> (r: &Config)
        ensures
            *r == self.config_spec(),
    {
        &self.config
    }

    pub fn is_leader(&self) -> (r: bool)
        ensures
            r == (self.role() == NodeType::Leader),
    {
        self.nodetype == NodeType::Leader
    }

    /// Records the node id obtained at start-up.
    pub fn set_node_id(&mut self, id: usize)
        ensures
            final(self).id() == Some(id),
            final(self).role() == old(self).role(),
            final(self).config_spec() == old(self).config_spec(),
            final(self).json() == old(self).json(),
            final(self).registry_spec() == old(self).registry_spec(),
            final(self).registered_key() == old(self).registered_key(),
    {
        self.node_id = Some(id);
    }

    /// Adds a peer; only a leader keeps a registry.
    pub fn add_endpoint(&mut self, endpoint: ServiceNode) -> (r: Result<(), ClusterNodeError>)
        ensures
            old(self).role() == NodeType::Member ==> r is Err && r->Err_0 is InvalidFunctionAttempt
                && *final(self) == *old(self),
            old(self).role() == NodeType::Leader ==> r is Ok && final(self).registry_spec() == old(
                self,
            ).registry_spec().push(endpoint),
            final(self).role() == old(self).role(),
            final(self).id() == old(self).id(),
            final(self).config_spec() == old(self).config_spec(),
    {
        if self.nodetype == NodeType::Member {
            return Err(ClusterNodeError::InvalidFunctionAttempt("add_endpoint".to_owned()));
        }
        self.registry.add_endpoint(endpoint);
        Ok(())
    }

    /// Replaces the registry; only a leader keeps one.
    pub fn update_registry(&mut self, endpoints: Vec<ServiceNode>) -> (r: Result<(), ClusterNodeError>)
        ensures
            old(self).role() == NodeType::Member ==> r is Err && r->Err_0 is InvalidFunctionAttempt
                && *final(self) == *old(self),
            old(self).role() == NodeType::Leader ==> r is Ok && final(self).registry_spec()
                == endpoints@,
            final(self).role() == old(self).role(),
            final(self).id() == old(self).id(),
            final(self).config_spec() == old(self).config_spec(),
    {
        if self.nodetype == NodeType::Member {
            return Err(ClusterNodeError::InvalidFunctionAttempt("update_registry".to_owned()));
        }
        self.registry.update_registry(endpoints);
        Ok(())
    }

    /// The key the node registered under.
    pub fn group_key(&self) -> (r: Result<Vec<u8>, ClusterNodeError>)
        ensures
            self.registered_key() is None ==> r is Err && r->Err_0 is InvalidState,
            self.registered_key() is Some ==> r is Ok && r->Ok_0@ == self.registered_key()->Some_0@,
    {
        match &self.group_key {
            Some(g) => Ok(copy_bytes(g)),
            None => Err(ClusterNodeError::InvalidState("Group ID is not known".to_owned())),
        }
    }

    /// Switches between member and leader.
    pub fn flip_nodetype(&mut self)
        ensures
            final(self).role() == (if old(self).role() == NodeType::Member {
                NodeType::Leader
            } else {
                NodeType::Member
            }),
            final(self).id() == old(self).id(),
            final(self).config_spec() == old(self).config_spec(),
            final(self).json() == old(self).json(),
            final(self).registry_spec() == old(self).registry_spec(),
            final(self).registered_key() == old(self).registered_key(),
    {
        match self.nodetype {
            NodeType::Member => self.nodetype = NodeType::Leader,
            NodeType::Leader => self.nodetype = NodeType::Member,
        }
    }

    /// The key to register under in group `group_id`:
    /// `member-<db>-group-<g>-<json>`.
    pub fn registration_key(&self, group_id: usize) -> (r: Vec<u8>)
        ensures
            r@ == membership_key(self.config_spec().settings().dbname@, group_id as nat) + text("-")
                + self.json(),
    {
        let db = self.config.dbname();
        let mut key = group_membership_key_gen(&db, group_id);
        push_all(&mut key, "-".as_bytes());
        push_all(&mut key, self.svc_json.as_slice());
        key
    }

    /// Records that the registration under `key` succeeded.
    pub fn set_group_key(&mut self, key: Vec<u8>)
        ensures
            final(self).registered_key() == Some(key),
            final(self).role() == old(self).role(),
            final(self).id() == old(self).id(),
            final(self).config_spec() == old(self).config_spec(),
            final(self).json() == old(self).json(),
            final(self).registry_spec() == old(self).registry_spec(),
    {
        self.group_key = Some(key);
    }

    /// The node id.
    pub fn node_id_from_registry(&self) -> (r: Result<usize, ClusterNodeError>)
        ensures
            self.id() is None ==> r is Err && r->Err_0 is InvalidState,
            self.id() is Some ==> r == Ok::<usize, ClusterNodeError>(self.id()->Some_0),
    {
        match self.node_id {
            Some(nid) => Ok(nid),
            None => Err(ClusterNodeError::InvalidState("Node ID undefined".to_owned())),
        }
    }

    /// The coalition keys of this node's group.
    pub fn fetch_keys(&self, typ: KeyType) -> (r: Result<(Vec<u8>, Vec<u8>), ClusterNodeError>)
        requires
            self.wf(),
        ensures
            r is Ok <==> self.coalition() is Some,
            r is Err ==> r->Err_0 is InvalidState,
            r is Ok ==> {
                let i = self.coalition()->Some_0;
                let db = self.config_spec().settings().dbname@;
                &&& typ == KeyType::Leader ==> r->Ok_0.0@ == leader_key(db, i, 1) && r->Ok_0.1@
                    == leader_key(db, i, 2)
                &&& typ == KeyType::Election ==> r->Ok_0.0@ == election_key(db, i, 1) && r->Ok_0.1@
                    == election_key(db, i, 2)
            },
    {
        let nid = self.node_id_from_registry()?;
        let group_id = match self.config.group_id(nid) {
            Some(gid) => gid,
            None => {
                return Err(ClusterNodeError::InvalidState("Group ID undefined".to_owned()));
            },
        };
        match typ {
            KeyType::Leader => match self.config.leader_key(group_id) {
                Some(keys) => Ok(keys),
                None => Err(ClusterNodeError::InvalidState("Leader keys not found".to_owned())),
            },
            KeyType::Election => match self.config.election_keys(group_id) {
                Some(keys) => Ok(keys),
                None => Err(ClusterNodeError::InvalidState("Election keys not found".to_owned())),
            },
        }
    }

    /// The coalition of this node: that of the group of its id.
    pub open spec fn coalition(&self) -> Option<nat> {
        let s = self.config_spec().settings();
        match self.id() {
            Some(nid) => if s.group_size > 0 && nid < s.group_size * s.group_size {
                crate::config::coalition_of(s.reads as nat, s.groups as nat, (nid / s.group_size) as nat)
            } else {
                None
            },
            None => None,
        }
    }

    pub fn leader_keys(&self) -> (r: Result<(Vec<u8>, Vec<u8>), ClusterNodeError>)
        requires
            self.wf(),
        ensures
            r is Ok <==> self.coalition() is Some,
            r is Err ==> r->Err_0 is InvalidState,
            r is Ok ==> {
                let i = self.coalition()->Some_0;
                let db = self.config_spec().settings().dbname@;
                r->Ok_0.0@ == leader_key(db, i, 1) && r->Ok_0.1@ == leader_key(db, i, 2)
            },
    {
        self.fetch_keys(KeyType::Leader)
    }

    pub fn election_keys(&self) -> (r: Result<(Vec<u8>, Vec<u8>), ClusterNodeError>)
        requires
            self.wf(),
        ensures
            r is Ok <==> self.coalition() is Some,
            r is Err ==> r->Err_0 is InvalidState,
            r is Ok ==> {
                let i = self.coalition()->Some_0;
                let db = self.config_spec().settings().dbname@;
                r->Ok_0.0@ == election_key(db, i, 1) && r->Ok_0.1@ == election_key(db, i, 2)
            },
    {
        self.fetch_keys(KeyType::Election)
    }

    /// Given whether each election key of the coalition is taken, the
    /// election key to campaign for: the first free one; none when both are
    /// taken.
    pub fn campaign_target(&self, taken1: bool, taken2: bool) -> (r: Result<Option<Vec<u8>>, ClusterNodeError>)
        requires
            self.wf(),
        ensures
            r is Ok <==> self.coalition() is Some,
            r is Err ==> r->Err_0 is InvalidState,
            r is Ok ==> {
                let i = self.coalition()->Some_0;
                let db = self.config_spec().settings().dbname@;
                match campaign_choice(taken1, taken2) {
                    Some(n) => r->Ok_0 is Some && r->Ok_0->Some_0@ == election_key(db, i, n),
                    None => r->Ok_0 is None,
                }
            },
    {
        let (e1, e2) = self.election_keys()?;
        if !taken1 {
            Ok(Some(e1))
        } else if !taken2 {
            Ok(Some(e2))
        } else {
            Ok(None)
        }
    }

    /// Given the key of a deleted entry seen by a watch, the election key to
    /// campaign for: that of the slot whose leader key or election key
    /// prefixes it (the first slot's when both would); none for any other key.
    pub fn slot_of_deleted(&self, deleted: &Vec<u8>) -> (r: Result<Option<Vec<u8>>, ClusterNodeError>)
        requires
            self.wf(),
        ensures
            r is Ok <==> self.coalition() is Some,
            r is Err ==> r->Err_0 is InvalidState,
            r is Ok ==> {
                let i = self.coalition()->Some_0;
                let db = self.config_spec().settings().dbname@;
                if starts_with(deleted@, leader_key(db, i, 1)) || starts_with(deleted@, election_key(db, i, 1)) {
                    r->Ok_0 is Some && r->Ok_0->Some_0@ == election_key(db, i, 1)
                } else if starts_with(deleted@, leader_key(db, i, 2)) || starts_with(deleted@, election_key(db, i, 2)) {
                    r->Ok_0 is Some && r->Ok_0->Some_0@ == election_key(db, i, 2)
                } else {
                    r->Ok_0 is None
                }
            },
    {
        let (l1, l2) = self.leader_keys()?;
        let (e1, e2) = self.election_keys()?;
        if has_prefix(deleted, &l1) || has_prefix(deleted, &e1) {
            Ok(Some(e1))
        } else if has_prefix(deleted, &l2) || has_prefix(deleted, &e2) {
            Ok(Some(e2))
        } else {
            Ok(None)
        }
    }

    /// The leader key that goes with an election key won: the first slot's
    /// for the first election key, else the second's.
    pub fn leader_key_for(&self, election: &Vec<u8>) -> (r: Result<Vec<u8>, ClusterNodeError>)
        requires
            self.wf(),
        ensures
            r is Ok <==> self.coalition() is Some,
            r is Err ==> r->Err_0 is InvalidState,
            r is Ok ==> {
                let i = self.coalition()->Some_0;
                let db = self.config_spec().settings().dbname@;
                r->Ok_0@ == (if election@ == election_key(db, i, 1) {
                    leader_key(db, i, 1)
                } else {
                    leader_key(db, i, 2)
                })
            },
    {
        let (l1, l2) = self.leader_keys()?;
        let (e1, _e2) = self.election_keys()?;
        if bytes_equal(&e1, election) {
            Ok(l1)
        } else {
            Ok(l2)
        }
    }

    /// The next step of a campaign for an election key: lock it with the
    /// node's lease; once the lock is held, and only then, put the node's JSON
    /// into the leader key of the same slot, with the same lease.
    pub fn campaign_action(&self, election: &Vec<u8>, locked: bool) -> (r: Result<CampaignAction, ClusterNodeError>)
        requires
            self.wf(),
        ensures
            r is Ok <==> self.coalition() is Some,
            r is Err ==> r->Err_0 is InvalidState,
            r is Ok && !locked ==> r->Ok_0 is Lock && r->Ok_0->Lock_0@ == election@ && r->Ok_0->Lock_1
                == self.lease_spec(),
            r is Ok && locked ==> {
                let i = self.coalition()->Some_0;
                let db = self.config_spec().settings().dbname@;
                &&& r->Ok_0 is Put
                &&& r->Ok_0->Put_0@ == (if election@ == election_key(db, i, 1) {
                    leader_key(db, i, 1)
                } else {
                    leader_key(db, i, 2)
                })
                &&& r->Ok_0->Put_1@ == self.json()
                &&& r->Ok_0->Put_2 == self.lease_spec()
            },
    {
        let leader = self.leader_key_for(election)?;
        if !locked {
            Ok(CampaignAction::Lock(copy_bytes(election), self.lease))
        } else {
            Ok(CampaignAction::Put(leader, copy_bytes(&self.svc_json), self.lease))
        }
    }

    /// The registration of the node in group `group_id`: the key
    /// `member-<db>-group-<g>-<json>`, the node's JSON as value, and the
    /// node's lease, so that the entry goes when the lease does.
    pub fn registration(&self, group_id: usize) -> (r: (Vec<u8>, Vec<u8>, i64))
        ensures
            r.0@ == membership_key(self.config_spec().settings().dbname@, group_id as nat) + text("-")
                + self.json(),
            r.1@ == self.json(),
            r.2 == self.lease_spec(),
    {
        (self.registration_key(group_id), copy_bytes(&self.svc_json), self.lease)
    }

    /// A leader whose registry has fewer members than `reads` invites a
    /// replacement: the key `<failover prefix>-<json>` with the group as value.
    pub fn failover_announcement(&self, group: usize) -> (r: Option<(Vec<u8>, Vec<u8>)>)
        ensures
            r is Some <==> self.role() == NodeType::Leader && self.registry_spec().len()
                < self.config_spec().settings().reads,
            r is Some ==> r->Some_0.0@ == self.config_spec().settings().failover_id_key_prefix@
                + text("-") + self.json() && r->Some_0.1@ == decimal(group as nat),
    {
        if self.nodetype == NodeType::Leader && self.registry.member_count() < self.config.reads() {
            let (_, mut key) = self.config.id_keys();
            push_all(&mut key, "-".as_bytes());
            push_all(&mut key, self.svc_json.as_slice());
            let mut value: Vec<u8> = Vec::new();
            push_decimal(&mut value, group);
            assert(value@ =~= decimal(group as nat));
            Some((key, value))
        } else {
            None
        }
    }

    /// The coalition's leaders, from what its two leader keys hold: an
    /// error when neither holds one.
    pub fn get_leaders(&self, found: Vec<ServiceNode>) -> (r: Result<Vec<ServiceNode>, ClusterNodeError>)
        ensures
            found@.len() == 0 ==> r is Err && r->Err_0 is InvalidState,
            found@.len() > 0 ==> r is Ok && r->Ok_0@ == found@,
    {
        if found.len() == 0 {
            Err(ClusterNodeError::InvalidState("No Leader found".to_owned()))
        } else {
            Ok(found)
        }
    }
}

/// The group a failover announcement names: its value in base 10.
pub fn parse_group(value: &Vec<u8>) -> (r: Option<usize>)
    ensures
        r is Some <==> (value@.len() > 0 && (forall|i: int| 0 <= i < value@.len() ==> is_dec(#[trigger] value@[i]))
            && dec_value(value@) <= usize::MAX),
        r is Some ==> r->Some_0 == dec_value(value@),
{
    if value.len() == 0 {
        return None;
    }
    let mut v: usize = 0;
    let mut i: usize = 0;
    while i < value.len()
        invariant
            i <= value@.len(),
            value@.len() > 0,
            forall|k: int| 0 <= k < i ==> is_dec(#[trigger] value@[k]),
            v as nat == dec_value(value@.subrange(0, i as int)),
        decreases value@.len() - i,
    {
        let c = value[i];
        if c < 48 || c > 57 {
            assert(!is_dec(value@[i as int]));
            return None;
        }
        let ghost nxt = value@.subrange(0, i + 1);
        proof {
            assert(nxt.drop_last() =~= value@.subrange(0, i as int));
        }
        if v > (usize::MAX - (c - 48) as usize) / 10 {
            proof {
                assert(dec_value(nxt) > usize::MAX);
                if forall|k: int| 0 <= k < value@.len() ==> is_dec(#[trigger] value@[k]) {
                    lemma_dec_prefix_le(value@, i + 1);
                }
            }
            return None;
        }
        v = v * 10 + (c - 48) as usize;
        i = i + 1;
    }
    proof {
        assert(value@.subrange(0, value@.len() as int) =~= value@);
    }
    Some(v)
}

/// A node that sees both leader slots taken does not campaign.
pub proof fn lemma_no_campaign_when_full()
    ensures
        campaign_choice(true, true) is None,
        campaign_choice(false, true) == Some(1nat),
        campaign_choice(true, false) == Some(2nat),
{
}

} // verus!

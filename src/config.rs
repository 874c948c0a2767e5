//! Cluster configuration: the user's settings, and what follows from them:
//! the group of each node id, the coalition of each group, and the election
//! and leader keys of each coalition.
use vstd::prelude::*;
use vstd::string::StringSliceAdditionalSpecFns;

verus! {

/// The digits of `n` in base 10, most significant first.
pub open spec fn decimal(n: nat) -> Seq<u8>
    decreases n,
{
    if n < 10 {
        seq![(48 + n) as u8]
    } else {
        decimal(n / 10).push((48 + n % 10) as u8)
    }
}

/// Appends the bytes of `s`.
pub fn push_all(out: &mut Vec<u8>, s: &[u8])
    ensures
        final(out)@ == old(out)@ + s@,
{
    let ghost start = out@;
    let mut i: usize = 0;
    while i < s.len()
        invariant
            i <= s@.len(),
            out@ == start + s@.subrange(0, i as int),
        decreases s@.len() - i,
    {
        out.push(s[i]);
        i = i + 1;
        assert(out@ =~= start + s@.subrange(0, i as int));
    }
    assert(s@.subrange(0, s@.len() as int) =~= s@);
}

/// Appends `n` in base 10.
pub fn push_decimal(out: &mut Vec<u8>, n: usize)
    ensures
        final(out)@ == old(out)@ + decimal(n as nat),
    decreases n,
{
    if n >= 10 {
        push_decimal(out, n / 10);
    }
    out.push(48 + (n % 10) as u8);
    proof {
        if n >= 10 {
            assert(decimal(n as nat) == decimal((n / 10) as nat).push((48 + n % 10) as u8));
        }
    }
    assert(out@ =~= old(out)@ + decimal(n as nat));
}

pub open spec fn text(s: &str) -> Seq<u8> {
    s.spec_bytes()
}

/// `election-<db>-group-<i>-leader-<n>`
pub open spec fn election_key(db: Seq<u8>, i: nat, n: nat) -> Seq<u8> {
    text("election-") + db + text("-group-") + decimal(i) + text("-leader-") + decimal(n)
}

/// `leader-<db>-group-<i>-<n>`
pub open spec fn leader_key(db: Seq<u8>, i: nat, n: nat) -> Seq<u8> {
    text("leader-") + db + text("-group-") + decimal(i) + text("-") + decimal(n)
}

/// `member-<db>-group-<g>`
pub open spec fn membership_key(db: Seq<u8>, g: nat) -> Seq<u8> {
    text("member-") + db + text("-group-") + decimal(g)
}

/// `group-add-lock-<g>`
pub open spec fn group_add_lock(g: nat) -> Seq<u8> {
    text("group-add-lock-") + decimal(g)
}

pub fn election_key_gen(db: &Vec<u8>, i: usize, n: usize) -> (r: Vec<u8>)
    ensures
        r@ == election_key(db@, i as nat, n as nat),
{
    let mut out: Vec<u8> = Vec::new();
    push_all(&mut out, "election-".as_bytes());
    push_all(&mut out, db.as_slice());
    push_all(&mut out, "-group-".as_bytes());
    push_decimal(&mut out, i);
    push_all(&mut out, "-leader-".as_bytes());
    push_decimal(&mut out, n);
    assert(out@ =~= election_key(db@, i as nat, n as nat));
    out
}

pub fn leader_key_gen(db: &Vec<u8>, i: usize, n: usize) -> (r: Vec<u8>)
    ensures
        r@ == leader_key(db@, i as nat, n as nat),
{
    let mut out: Vec<u8> = Vec::new();
    push_all(&mut out, "leader-".as_bytes());
    push_all(&mut out, db.as_slice());
    push_all(&mut out, "-group-".as_bytes());
    push_decimal(&mut out, i);
    push_all(&mut out, "-".as_bytes());
    push_decimal(&mut out, n);
    assert(out@ =~= leader_key(db@, i as nat, n as nat));
    out
}

pub fn group_membership_key_gen(db: &Vec<u8>, g: usize) -> (r: Vec<u8>)
    ensures
        r@ == membership_key(db@, g as nat),
{
    let mut out: Vec<u8> = Vec::new();
    push_all(&mut out, "member-".as_bytes());
    push_all(&mut out, db.as_slice());
    push_all(&mut out, "-group-".as_bytes());
    push_decimal(&mut out, g);
    assert(out@ =~= membership_key(db@, g as nat));
    out
}

pub fn group_add_lock_gen(g: usize) -> (r: Vec<u8>)
    ensures
        r@ == group_add_lock(g as nat),
{
    let mut out: Vec<u8> = Vec::new();
    push_all(&mut out, "group-add-lock-".as_bytes());
    push_decimal(&mut out, g);
    assert(out@ =~= group_add_lock(g as nat));
    out
}

/// The lock taken to read a new node id.
pub fn id_key_lock() -> (r: Vec<u8>)
    ensures
        r@ == text("id-key-lock"),
{
    let mut out: Vec<u8> = Vec::new();
    push_all(&mut out, "id-key-lock".as_bytes());
    assert(out@ =~= text("id-key-lock"));
    out
}

/// The settings the user writes.
pub struct PreConfig {
    /// Name of the database.
    pub dbname: Vec<u8>,
    /// Number of groups.
    pub groups: usize,
    /// Number of nodes in each group.
    pub group_size: usize,
    /// Number of groups read for each read; a coalition of this many groups
    /// shares two leaders.
    pub reads: usize,
    /// Number of nodes a write goes to before it is committed.
    pub writes: usize,
    /// The key whose value is the next node id.
    pub id_key: Vec<u8>,
    /// The key prefix under which leaders announce failed nodes.
    pub failover_id_key_prefix: Vec<u8>,
}

/// The coalition of a group: groups `[i*reads, (i+1)*reads)` form coalition `i`.
pub open spec fn coalition_of(reads: nat, groups: nat, g: nat) -> Option<nat> {
    if reads > 0 && g < groups {
        Some(g / reads)
    } else {
        None
    }
}

/// The groups of coalition `i`, in order.
pub open spec fn coalition_groups(reads: nat, groups: nat, i: nat) -> Seq<usize> {
    let start = i * reads;
    let end = if start + reads > groups { groups } else { start + reads };
    Seq::new((end - start) as nat, |k: int| (start + k) as usize)
}

/// The configuration of the cluster.
pub struct Config {
    preconf: PreConfig,
    /// Leaders and the group each leads.
    leader_group_map: Vec<(Vec<u8>, usize)>,
}

impl Config {
    pub closed spec fn settings(&self) -> PreConfig {
        self.preconf
    }

    /// Leaders and the group each leads.
    pub closed spec fn leaders(&self) -> Seq<(Vec<u8>, usize)> {
        self.leader_group_map@
    }

    pub closed spec fn wf(&self) -> bool {
        &&& self.preconf.reads > 0
        &&& forall|k: int| 0 <= k < self.leader_group_map@.len() ==> (#[trigger] self.leader_group_map@[k]).1 < self.preconf.groups
    }

    /// A well-formed configuration has coalitions of at least one group.
    pub proof fn lemma_reads_positive(&self)
        requires
            self.wf(),
        ensures
            self.settings().reads > 0,
    {
    }

    /// The configuration derived from the user's settings; `None` when a
    /// coalition would have no group (`reads` is 0).
    pub fn new(preconf: PreConfig) -> (r: Option<Config>)
        ensures
            preconf.reads == 0 <==> r is None,
            r is Some ==> r->Some_0.wf() && r->Some_0.settings() == preconf,
    {
        if preconf.reads == 0 {
            return None;
        }
        Some(Config { preconf, leader_group_map: Vec::new() })
    }

    /// The database name.
    pub fn dbname(&self) -> (r: Vec<u8>)
        ensures
            r@ == self.settings().dbname@,
    {
        crate::event::copy_bytes(&self.preconf.dbname)
    }

    /// The new-id key and the failover key prefix.
    pub fn id_keys(&self) -> (r: (Vec<u8>, Vec<u8>))
        ensures
            r.0@ == self.settings().id_key@,
            r.1@ == self.settings().failover_id_key_prefix@,
    {
        (
            crate::event::copy_bytes(&self.preconf.id_key),
            crate::event::copy_bytes(&self.preconf.failover_id_key_prefix),
        )
    }

    /// The group of a node id: ids `[k*group_size, (k+1)*group_size)` form
    /// group `k`, for `k < group_size`.
    pub fn group_id(&self, node_id: usize) -> (r: Option<usize>)
        ensures
            r == (if self.settings().group_size > 0 && node_id < self.settings().group_size
                * self.settings().group_size {
                Some((node_id / self.settings().group_size) as usize)
            } else {
                None
            }),
    {
        let gs = self.preconf.group_size;
        if gs == 0 {
            return None;
        }
        let g = node_id / gs;
        proof {
            assert(node_id < gs * gs <==> g < gs) by (nonlinear_arith)
                requires
                    gs > 0,
                    g == node_id / gs,
            ;
        }
        if g < gs {
            Some(g)
        } else {
            None
        }
    }

    pub fn reads(&self) -> (r: usize)
        ensures
            r == self.settings().reads,
    {
        self.preconf.reads
    }

    pub fn _writes(&self) -> (r: usize)
        ensures
            r == self.settings().writes,
    {
        self.preconf.writes
    }

    /// The coalition index of a group.
    pub fn groupings_index(&self, group: usize) -> (r: Option<usize>)
        requires
            self.wf(),
        ensures
            r == (match coalition_of(self.settings().reads as nat, self.settings().groups as nat, group as nat) {
                Some(i) => Some(i as usize),
                None => None,
            }),
    {
        if group < self.preconf.groups {
            Some(group / self.preconf.reads)
        } else {
            None
        }
    }

    /// The groups of the coalition a group belongs to.
    fn coalition(&self, group: usize) -> (r: Vec<usize>)
        requires
            self.wf(),
            group < self.settings().groups,
        ensures
            r@ == coalition_groups(
                self.settings().reads as nat,
                self.settings().groups as nat,
                (group / self.settings().reads) as nat,
            ),
    {
        let reads = self.preconf.reads;
        let groups = self.preconf.groups;
        let i = group / reads;
        assert(group % reads <= group) by (nonlinear_arith)
            requires
                reads > 0,
        ;
        let start = group - group % reads;
        assert(start == i * reads) by (nonlinear_arith)
            requires
                reads > 0,
                i == group / reads,
                start == group - group % reads,
        ;
        let end = if groups - start < reads {
            groups
        } else {
            start + reads
        };
        let mut out: Vec<usize> = Vec::new();
        let mut k = start;
        while k < end
            invariant
                start <= k <= end,
                out@ == Seq::new((k - start) as nat, |m: int| (start + m) as usize),
            decreases end - k,
        {
            out.push(k);
            k = k + 1;
            assert(out@ =~= Seq::new((k - start) as nat, |m: int| (start + m) as usize));
        }
        assert(out@ =~= coalition_groups(reads as nat, groups as nat, i as nat));
        out
    }

    /// The groups that a leader leads: the coalition of the group recorded
    /// for it, if any.
    pub fn group_ids(&self, leader: &Vec<u8>) -> (r: Option<Vec<usize>>)
        requires
            self.wf(),
        ensures
            r is Some <==> exists|k: int| 0 <= k < self.leaders().len() && (#[trigger] self.leaders()[k]).0@ == leader@,
            r is Some ==> exists|k: int|
                0 <= k < self.leaders().len() && (#[trigger] self.leaders()[k]).0@ == leader@
                    && r->Some_0@ == coalition_groups(
                    self.settings().reads as nat,
                    self.settings().groups as nat,
                    (self.leaders()[k].1 / self.settings().reads) as nat,
                ),
    {
        let mut k: usize = 0;
        while k < self.leader_group_map.len()
            invariant
                self.wf(),
                k <= self.leader_group_map.len(),
                forall|m: int| 0 <= m < k ==> (#[trigger] self.leader_group_map@[m]).0@ != leader@,
            decreases self.leader_group_map.len() - k,
        {
            if crate::event::bytes_equal(&self.leader_group_map[k].0, leader) {
                let g = self.leader_group_map[k].1;
                let r = self.coalition(g);
                assert(self.leaders()[k as int].0@ == leader@);
                assert(r@ == coalition_groups(
                    self.settings().reads as nat,
                    self.settings().groups as nat,
                    (self.leaders()[k as int].1 / self.settings().reads) as nat,
                ));
                return Some(r);
            }
            k = k + 1;
        }
        None
    }

    /// The leader key pair of a group's coalition.
    pub fn leader_key(&self, group: usize) -> (r: Option<(Vec<u8>, Vec<u8>)>)
        requires
            self.wf(),
        ensures
            r is Some <==> coalition_of(self.settings().reads as nat, self.settings().groups as nat, group as nat) is Some,
            r is Some ==> {
                let i = coalition_of(self.settings().reads as nat, self.settings().groups as nat, group as nat)->Some_0;
                &&& r->Some_0.0@ == leader_key(self.settings().dbname@, i, 1)
                &&& r->Some_0.1@ == leader_key(self.settings().dbname@, i, 2)
            },
    {
        match self.groupings_index(group) {
            Some(i) => Some((leader_key_gen(&self.preconf.dbname, i, 1), leader_key_gen(&self.preconf.dbname, i, 2))),
            None => None,
        }
    }

    /// The election key pair of a group's coalition.
    pub fn election_keys(&self, group: usize) -> (r: Option<(Vec<u8>, Vec<u8>)>)
        requires
            self.wf(),
        ensures
            r is Some <==> coalition_of(self.settings().reads as nat, self.settings().groups as nat, group as nat) is Some,
            r is Some ==> {
                let i = coalition_of(self.settings().reads as nat, self.settings().groups as nat, group as nat)->Some_0;
                &&& r->Some_0.0@ == election_key(self.settings().dbname@, i, 1)
                &&& r->Some_0.1@ == election_key(self.settings().dbname@, i, 2)
            },
    {
        match self.groupings_index(group) {
            Some(i) => Some((election_key_gen(&self.preconf.dbname, i, 1), election_key_gen(&self.preconf.dbname, i, 2))),
            None => None,
        }
    }
}

} // verus!

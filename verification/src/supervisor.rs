//! The process supervisor's bookkeeping: which processes a local cluster consists of, how each is
//! launched, and which are running. Killing a node is an honest experiment: a process dies, and
//! the cluster's own failover does the recovery.

use vstd::prelude::*;
use vstd::string::*;

use crate::text::{decimal, decimal_of, lemma_texts_push, owned, same, texts};

verus! {

/// The port of the first shard node.
pub const FIRST_PORT: u16 = 50051;

/// A process to start: its name, its program, and the variables that it is given.
#[derive(Debug, PartialEq)]
pub struct Launch {
    pub node_id: String,
    pub program: String,
    pub env: Vec<(String, String)>,
}

/// Variables as texts.
pub open spec fn pairs(env: Seq<(String, String)>) -> Seq<(Seq<char>, Seq<char>)> {
    Seq::new(env.len(), |i: int| (env[i].0@, env[i].1@))
}

/// The variables of the coordinator: snappy failover for a live cluster.
pub open spec fn coordinator_env(addr: Seq<char>, shard_count: u32) -> Seq<(Seq<char>, Seq<char>)> {
    Seq::empty().push(("AETHER_COORDINATOR_ADDR"@, addr)).push(
        ("AETHER_SHARD_COUNT"@, decimal_of(shard_count as nat)),
    ).push(("AETHER_LIVENESS_TIMEOUT_SECS"@, "6"@))
}

/// The variables of a shard node.
pub open spec fn node_env(
    node_id: Seq<char>,
    shard_id: u32,
    role: Seq<char>,
    port: u16,
    coordinator: Seq<char>,
    shard_count: u32,
) -> Seq<(Seq<char>, Seq<char>)> {
    Seq::empty().push(("AETHER_SHARD_ADDR"@, "127.0.0.1:"@ + decimal_of(port as nat))).push(
        ("AETHER_SHARD_INDEX"@, decimal_of(shard_id as nat)),
    ).push(("AETHER_SHARD_COUNT"@, decimal_of(shard_count as nat))).push(
        ("AETHER_ROLE"@, role),
    ).push(("AETHER_COORDINATOR_ADDR"@, coordinator)).push(("AETHER_NODE_ID"@, node_id)).push(
        ("AETHER_HEARTBEAT_SECS"@, "2"@),
    ).push(("AETHER_POLL_SECS"@, "10"@))
}

/// The name of a shard's first leader.
pub open spec fn leader_name(shard_id: u32) -> Seq<char> {
    "shard"@ + decimal_of(shard_id as nat) + "-leader"@
}

/// The name of a shard's follower.
pub open spec fn follower_name(shard_id: u32, seq: u32) -> Seq<char> {
    "shard"@ + decimal_of(shard_id as nat) + "-f"@ + decimal_of(seq as nat)
}

/// The port that is `n` after `port`; ports wrap around.
pub open spec fn port_after(port: u16, n: nat) -> u16 {
    ((port + n) % 65536) as u16
}

proof fn lemma_port_after(port: u16, m: nat, n: nat)
    ensures
        port_after(port_after(port, m), n) == port_after(port, m + n),
{
}

fn set(env: &mut Vec<(String, String)>, key: &str, value: String)
    ensures
        pairs(final(env)@) == pairs(old(env)@).push((key@, value@)),
{
    let ghost before = env@;
    env.push((owned(key), value));
    assert(pairs(env@) =~= pairs(before).push((key@, value@)));
}

/// The supervisor of a local cluster.
pub struct Supervisor {
    managed: Vec<String>,
    next_port: u16,
    follower_seq: u32,
    shard_count: u32,
    coordinator_addr: String,
}

impl Supervisor {
    /// The processes that are running, by name.
    pub closed spec fn running(self) -> Seq<Seq<char>> {
        texts(self.managed@)
    }

    /// The port of the next shard node.
    pub closed spec fn next_port(self) -> u16 {
        self.next_port
    }

    /// The number of the next added follower.
    pub closed spec fn follower_seq(self) -> u32 {
        self.follower_seq
    }

    /// The number of shards.
    pub closed spec fn shard_count(self) -> u32 {
        self.shard_count
    }

    /// Where the coordinator listens.
    pub closed spec fn coordinator(self) -> Seq<char> {
        self.coordinator_addr@
    }

    /// Whether no name runs twice.
    pub open spec fn well_formed(self) -> bool {
        self.running().no_duplicates()
    }

    /// Whether the cluster that is supervised is the same one.
    pub open spec fn same_cluster(self, other: Supervisor) -> bool {
        self.shard_count() == other.shard_count() && self.coordinator() == other.coordinator()
    }

    /// Whether a launch starts a shard node of this cluster.
    pub open spec fn starts_node(
        self,
        launch: Launch,
        node_id: Seq<char>,
        shard_id: u32,
        role: Seq<char>,
        port: u16,
    ) -> bool {
        &&& launch.node_id@ == node_id
        &&& launch.program@ == "shard-node"@
        &&& pairs(launch.env@) == node_env(
            node_id,
            shard_id,
            role,
            port,
            self.coordinator(),
            self.shard_count(),
        )
    }

    /// A supervisor that has started nothing yet.
    pub fn new(shard_count: u32, coordinator_addr: String) -> (supervisor: Self)
        ensures
            supervisor.well_formed(),
            supervisor.running() == Seq::<Seq<char>>::empty(),
            supervisor.next_port() == FIRST_PORT,
            supervisor.follower_seq() == 1,
            supervisor.shard_count() == shard_count,
            supervisor.coordinator() == coordinator_addr@,
    {
        let supervisor = Supervisor {
            managed: Vec::new(),
            next_port: FIRST_PORT,
            follower_seq: 1,
            shard_count,
            coordinator_addr,
        };
        assert(supervisor.running() =~= Seq::<Seq<char>>::empty());
        supervisor
    }

    /// Where the coordinator listens.
    pub fn coordinator_addr(&self) -> (addr: &str)
        ensures
            addr@ == self.coordinator(),
    {
        self.coordinator_addr.as_str()
    }

    /// The launch of the coordinator.
    pub fn spawn_coordinator(&self) -> (launch: Launch)
        ensures
            launch.node_id@ == "coordinator"@,
            launch.program@ == "coordinator"@,
            pairs(launch.env@) == coordinator_env(self.coordinator(), self.shard_count()),
    {
        let mut env: Vec<(String, String)> = Vec::new();
        assert(pairs(env@) =~= Seq::<(Seq<char>, Seq<char>)>::empty());
        set(&mut env, "AETHER_COORDINATOR_ADDR", self.coordinator_addr.clone());
        set(&mut env, "AETHER_SHARD_COUNT", decimal(self.shard_count as u64));
        set(&mut env, "AETHER_LIVENESS_TIMEOUT_SECS", owned("6"));
        Launch { node_id: owned("coordinator"), program: owned("coordinator"), env }
    }

    fn spawn_shard_node(&mut self, node_id: String, shard_id: u32, role: &str) -> (launch: Launch)
        ensures
            final(self).same_cluster(*old(self)),
            final(self).running() == old(self).running(),
            final(self).follower_seq() == old(self).follower_seq(),
            final(self).next_port() == port_after(old(self).next_port(), 1),
            old(self).starts_node(launch, node_id@, shard_id, role@, old(self).next_port()),
    {
        let port: u16 = self.next_port;
        self.next_port = port.wrapping_add(1);
        let mut addr = owned("127.0.0.1:");
        addr.append(decimal(port as u64).as_str());
        let mut env: Vec<(String, String)> = Vec::new();
        assert(pairs(env@) =~= Seq::<(Seq<char>, Seq<char>)>::empty());
        set(&mut env, "AETHER_SHARD_ADDR", addr);
        set(&mut env, "AETHER_SHARD_INDEX", decimal(shard_id as u64));
        set(&mut env, "AETHER_SHARD_COUNT", decimal(self.shard_count as u64));
        set(&mut env, "AETHER_ROLE", owned(role));
        set(&mut env, "AETHER_COORDINATOR_ADDR", self.coordinator_addr.clone());
        set(&mut env, "AETHER_NODE_ID", node_id.clone());
        set(&mut env, "AETHER_HEARTBEAT_SECS", owned("2"));
        set(&mut env, "AETHER_POLL_SECS", owned("10"));
        Launch { node_id, program: owned("shard-node"), env }
    }

    fn spawn_pair(&mut self, shard: u32) -> (pair: (Launch, Launch))
        ensures
            final(self).same_cluster(*old(self)),
            final(self).running() == old(self).running(),
            final(self).follower_seq() == old(self).follower_seq(),
            final(self).next_port() == port_after(old(self).next_port(), 2),
            old(self).starts_node(
                pair.0,
                leader_name(shard),
                shard,
                "leader"@,
                old(self).next_port(),
            ),
            old(self).starts_node(
                pair.1,
                follower_name(shard, 0),
                shard,
                "follower"@,
                port_after(old(self).next_port(), 1),
            ),
    {
        let mut name = owned("shard");
        name.append(decimal(shard as u64).as_str());
        name.append("-leader");
        let leader = self.spawn_shard_node(name, shard, "leader");
        let mut name = owned("shard");
        name.append(decimal(shard as u64).as_str());
        name.append("-f");
        name.append(decimal(0).as_str());
        let follower = self.spawn_shard_node(name, shard, "follower");
        (leader, follower)
    }

    /// The launches of the initial cluster: a leader and a follower for every shard, in this
    /// order, on successive ports.
    pub fn spawn_initial_topology(&mut self) -> (launches: Vec<Launch>)
        ensures
            final(self).same_cluster(*old(self)),
            final(self).running() == old(self).running(),
            final(self).follower_seq() == old(self).follower_seq(),
            final(self).next_port() == port_after(
                old(self).next_port(),
                2 * old(self).shard_count() as nat,
            ),
            launches@.len() == 2 * old(self).shard_count(),
            forall|shard: u32|
                shard < old(self).shard_count() ==> #[trigger] old(self).starts_shard(
                    launches@,
                    shard,
                    old(self).next_port(),
                ),
    {
        let mut launches: Vec<Launch> = Vec::new();
        let mut shard: u32 = 0;
        while shard < self.shard_count
            invariant
                self.same_cluster(*old(self)),
                self.running() == old(self).running(),
                self.follower_seq() == old(self).follower_seq(),
                shard <= self.shard_count,
                self.shard_count == old(self).shard_count(),
                self.next_port() == port_after(old(self).next_port(), 2 * shard as nat),
                launches@.len() == 2 * shard,
                forall|s: u32|
                    s < shard ==> #[trigger] old(self).starts_shard(
                        launches@,
                        s,
                        old(self).next_port(),
                    ),
            decreases self.shard_count - shard,
        {
            let ghost before = launches@;
            let ghost port = self.next_port();
            let (leader, follower) = self.spawn_pair(shard);
            launches.push(leader);
            launches.push(follower);
            proof {
                lemma_port_after(old(self).next_port(), 2 * shard as nat, 1);
                lemma_port_after(old(self).next_port(), 2 * shard as nat, 2);
            }
            proof {
                assert forall|s: u32| s < shard + 1 implies #[trigger] old(self).starts_shard(
                    launches@,
                    s,
                    old(self).next_port(),
                ) by {
                    if s < shard {
                        assert(old(self).starts_shard(before, s, old(self).next_port()));
                        assert(launches@[2 * s] == before[2 * s]);
                        assert(launches@[2 * s + 1] == before[2 * s + 1]);
                    }
                }
            }
            shard = shard + 1;
        }
        launches
    }

    /// Whether a list of launches holds a leader and a follower of a shard at its place.
    pub open spec fn starts_shard(self, launches: Seq<Launch>, shard: u32, first_port: u16) -> bool {
        &&& self.starts_node(
            launches[2 * shard],
            leader_name(shard),
            shard,
            "leader"@,
            port_after(first_port, 2 * shard as nat),
        )
        &&& self.starts_node(
            launches[2 * shard + 1],
            follower_name(shard, 0),
            shard,
            "follower"@,
            port_after(first_port, (2 * shard + 1) as nat),
        )
    }

    /// The launch of one more follower for a shard; followers are numbered in turn.
    pub fn add_follower(&mut self, shard_id: u32) -> (launch: Launch)
        ensures
            final(self).same_cluster(*old(self)),
            final(self).running() == old(self).running(),
            final(self).next_port() == port_after(old(self).next_port(), 1),
            final(self).follower_seq() == if old(self).follower_seq() == u32::MAX {
                0
            } else {
                (old(self).follower_seq() + 1) as u32
            },
            old(self).starts_node(
                launch,
                follower_name(shard_id, old(self).follower_seq()),
                shard_id,
                "follower"@,
                old(self).next_port(),
            ),
    {
        let seq: u32 = self.follower_seq;
        self.follower_seq = seq.wrapping_add(1);
        let mut node_id = owned("shard");
        node_id.append(decimal(shard_id as u64).as_str());
        node_id.append("-f");
        node_id.append(decimal(seq as u64).as_str());
        self.spawn_shard_node(node_id, shard_id, "follower")
    }

    fn slot_of(&self, node_id: &str) -> (slot: Option<usize>)
        ensures
            match slot {
                Some(at) => at < self.managed@.len() && self.running()[at as int] == node_id@,
                None => !self.running().contains(node_id@),
            },
    {
        let mut i: usize = 0;
        while i < self.managed.len()
            invariant
                i <= self.managed@.len(),
                forall|j: int| 0 <= j < i ==> #[trigger] self.running()[j] != node_id@,
            decreases self.managed@.len() - i,
        {
            if same(self.managed[i].as_str(), node_id) {
                return Some(i);
            }
            i = i + 1;
        }
        None
    }

    /// Note that a process was started.
    pub fn started(&mut self, node_id: &str)
        requires
            old(self).well_formed(),
        ensures
            final(self).well_formed(),
            final(self).same_cluster(*old(self)),
            final(self).next_port() == old(self).next_port(),
            final(self).follower_seq() == old(self).follower_seq(),
            final(self).running() == if old(self).running().contains(node_id@) {
                old(self).running()
            } else {
                old(self).running().push(node_id@)
            },
    {
        if self.slot_of(node_id).is_none() {
            let name = owned(node_id);
            proof {
                lemma_texts_push(self.managed@, name);
            }
            self.managed.push(name);
        } else {
            assert(self.running().contains(node_id@));
        }
    }

    /// Take a process off the books, to be killed; false, and no change, where none of that name
    /// is managed.
    pub fn kill(&mut self, node_id: &str) -> (known: bool)
        requires
            old(self).well_formed(),
        ensures
            final(self).well_formed(),
            final(self).same_cluster(*old(self)),
            final(self).next_port() == old(self).next_port(),
            final(self).follower_seq() == old(self).follower_seq(),
            known == old(self).running().contains(node_id@),
            !final(self).running().contains(node_id@),
            forall|name: Seq<char>|
                name != node_id@ ==> (final(self).running().contains(name) <==> #[trigger] old(
                    self,
                ).running().contains(name)),
            !known ==> final(self).running() == old(self).running(),
    {
        match self.slot_of(node_id) {
            None => false,
            Some(at) => {
                let ghost before = self.running();
                let _ = self.managed.remove(at);
                proof {
                    let after = self.running();
                    assert(after =~= before.remove(at as int));
                    assert(before[at as int] == node_id@);
                    assert forall|name: Seq<char>| name != node_id@ implies (after.contains(name)
                        <==> #[trigger] before.contains(name)) by {
                        if before.contains(name) {
                            let i = choose|i: int| 0 <= i < before.len() && before[i] == name;
                            if i < at {
                                assert(after[i] == name);
                            } else {
                                assert(after[i - 1] == name);
                            }
                        }
                        if after.contains(name) {
                            let i = choose|i: int| 0 <= i < after.len() && after[i] == name;
                            assert(before[if i < at {
                                i
                            } else {
                                i + 1
                            }] == name);
                        }
                    }
                    if after.contains(node_id@) {
                        let i = choose|i: int| 0 <= i < after.len() && after[i] == node_id@;
                        assert(before[if i < at {
                            i
                        } else {
                            i + 1
                        }] == node_id@);
                    }
                }
                true
            },
        }
    }

    /// Whether a process of that name is managed.
    pub fn manages(&self, node_id: &str) -> (known: bool)
        ensures
            known == self.running().contains(node_id@),
    {
        match self.slot_of(node_id) {
            Some(at) => {
                assert(self.running().contains(node_id@));
                true
            },
            None => false,
        }
    }

    /// The processes that are managed.
    pub fn managed(&self) -> (names: Vec<String>)
        ensures
            texts(names@) == self.running(),
    {
        let mut names: Vec<String> = Vec::new();
        let mut i: usize = 0;
        while i < self.managed.len()
            invariant
                i <= self.managed@.len(),
                texts(names@) == texts(self.managed@.take(i as int)),
            decreases self.managed@.len() - i,
        {
            proof {
                lemma_texts_push(names@, self.managed@[i as int]);
                lemma_texts_push(self.managed@.take(i as int), self.managed@[i as int]);
                assert(self.managed@.take(i + 1) =~= self.managed@.take(i as int).push(
                    self.managed@[i as int],
                ));
            }
            names.push(self.managed[i].clone());
            i = i + 1;
        }
        assert(self.managed@.take(i as int) =~= self.managed@);
        names
    }

    /// Take every process off the books, to be killed.
    pub fn kill_all(&mut self) -> (names: Vec<String>)
        ensures
            final(self).well_formed(),
            final(self).same_cluster(*old(self)),
            final(self).next_port() == old(self).next_port(),
            final(self).follower_seq() == old(self).follower_seq(),
            final(self).running() == Seq::<Seq<char>>::empty(),
            texts(names@) == old(self).running(),
    {
        let mut names: Vec<String> = Vec::new();
        std::mem::swap(&mut self.managed, &mut names);
        assert(self.running() =~= Seq::<Seq<char>>::empty());
        names
    }
}

/// No two nodes share a port while fewer nodes are started than there are ports.
pub proof fn law_nodes_listen_apart(port: u16, i: nat, j: nat)
    requires
        i < j < 65536,
    ensures
        port_after(port, i) != port_after(port, j),
{
}

/// Ports are handed out one after the other, and after the largest the count goes on at zero.
pub proof fn law_ports_are_handed_out_in_turn(port: u16, n: nat)
    ensures
        port_after(port, 0) == port,
        port_after(port, n) < u16::MAX ==> port_after(port, n + 1) == port_after(port, n) + 1,
        port_after(port, n) == u16::MAX ==> port_after(port, n + 1) == 0,
{
}

/// A started node is told who it is: its id, shard, role and port, where the coordinator listens
/// and how many shards there are.
pub proof fn law_a_node_is_told_who_it_is(
    node_id: Seq<char>,
    shard_id: u32,
    role: Seq<char>,
    port: u16,
    coordinator: Seq<char>,
    shard_count: u32,
)
    ensures
        ({
            let env = node_env(node_id, shard_id, role, port, coordinator, shard_count);
            &&& env.contains(("AETHER_NODE_ID"@, node_id))
            &&& env.contains(("AETHER_SHARD_INDEX"@, decimal_of(shard_id as nat)))
            &&& env.contains(("AETHER_ROLE"@, role))
            &&& env.contains(("AETHER_SHARD_ADDR"@, "127.0.0.1:"@ + decimal_of(port as nat)))
            &&& env.contains(("AETHER_COORDINATOR_ADDR"@, coordinator))
            &&& env.contains(("AETHER_SHARD_COUNT"@, decimal_of(shard_count as nat)))
        }),
        coordinator_env(coordinator, shard_count).contains(
            ("AETHER_COORDINATOR_ADDR"@, coordinator),
        ),
        coordinator_env(coordinator, shard_count).contains(
            ("AETHER_SHARD_COUNT"@, decimal_of(shard_count as nat)),
        ),
{
    let env = node_env(node_id, shard_id, role, port, coordinator, shard_count);
    assert(env[0] == ("AETHER_SHARD_ADDR"@, "127.0.0.1:"@ + decimal_of(port as nat)));
    assert(env[1] == ("AETHER_SHARD_INDEX"@, decimal_of(shard_id as nat)));
    assert(env[2] == ("AETHER_SHARD_COUNT"@, decimal_of(shard_count as nat)));
    assert(env[3] == ("AETHER_ROLE"@, role));
    assert(env[4] == ("AETHER_COORDINATOR_ADDR"@, coordinator));
    assert(env[5] == ("AETHER_NODE_ID"@, node_id));
    let own = coordinator_env(coordinator, shard_count);
    assert(own[0] == ("AETHER_COORDINATOR_ADDR"@, coordinator));
    assert(own[1] == ("AETHER_SHARD_COUNT"@, decimal_of(shard_count as nat)));
}

/// No two shards' leaders share a name, nor do two followers of a shard.
pub proof fn law_nodes_are_named_apart(a: u32, b: u32, m: u32, n: u32)
    ensures
        leader_name(a) == leader_name(b) ==> a == b,
        follower_name(a, m) == follower_name(a, n) ==> m == n,
{
    crate::text::law_decimals_read_back(a as nat, u32::MAX as nat);
    crate::text::law_decimals_read_back(b as nat, u32::MAX as nat);
    crate::text::law_decimals_read_back(m as nat, u32::MAX as nat);
    crate::text::law_decimals_read_back(n as nat, u32::MAX as nat);
    let x = decimal_of(a as nat);
    let y = decimal_of(b as nat);
    if leader_name(a) == leader_name(b) {
        let head = "shard"@.len() as int;
        let size = leader_name(a).len() as int;
        let tail = "-leader"@.len() as int;
        assert(leader_name(a).subrange(head, size - tail) =~= x);
        assert(leader_name(b).subrange(head, size - tail) =~= y);
    }
    if follower_name(a, m) == follower_name(a, n) {
        let head = ("shard"@ + x + "-f"@).len() as int;
        assert(follower_name(a, m).skip(head) =~= decimal_of(m as nat));
        assert(follower_name(a, n).skip(head) =~= decimal_of(n as nat));
    }
}

/// The initial topology starts every shard once, a leader and a follower next to each other, on
/// ports of their own.
pub proof fn law_every_shard_is_started(
    supervisor: Supervisor,
    launches: Seq<Launch>,
    shard: u32,
    first_port: u16,
)
    requires
        supervisor.starts_shard(launches, shard, first_port),
    ensures
        launches[2 * shard].node_id@ == "shard"@ + decimal_of(shard as nat) + "-leader"@,
        launches[2 * shard + 1].node_id@ == "shard"@ + decimal_of(shard as nat) + "-f"@
            + decimal_of(0),
        pairs(launches[2 * shard].env@).contains(("AETHER_ROLE"@, "leader"@)),
        pairs(launches[2 * shard + 1].env@).contains(("AETHER_ROLE"@, "follower"@)),
        pairs(launches[2 * shard].env@).contains(
            ("AETHER_SHARD_INDEX"@, decimal_of(shard as nat)),
        ),
        pairs(launches[2 * shard + 1].env@).contains(
            ("AETHER_SHARD_INDEX"@, decimal_of(shard as nat)),
        ),
{
    law_a_node_is_told_who_it_is(
        leader_name(shard),
        shard,
        "leader"@,
        port_after(first_port, 2 * shard as nat),
        supervisor.coordinator(),
        supervisor.shard_count(),
    );
    law_a_node_is_told_who_it_is(
        follower_name(shard, 0),
        shard,
        "follower"@,
        port_after(first_port, (2 * shard + 1) as nat),
        supervisor.coordinator(),
        supervisor.shard_count(),
    );
}

} // verus!
